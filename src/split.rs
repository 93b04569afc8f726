//! Strategies that divide a run of primitives in two while a hierarchy is
//! built: at the median centroid, at the spatial midpoint of the centroids,
//! or where the surface area heuristic finds the cheapest cut.
use crate::aabb::{AxisAlignedBoundingBox, GRID_LIMIT};
use vstd::prelude::*;

verus! {

/// A primitive as the hierarchy sees it: its bounding box on the grid, and
/// the position of the shape in the caller's scene.
#[derive(Clone, Copy, Debug, PartialEq, Eq, Structural)]
pub struct Primitive {
    pub bounds: AxisAlignedBoundingBox,
    pub index: usize,
}

impl Primitive {
    /// The box covers space and lies on the grid.
    pub open spec fn wf(self) -> bool {
        self.bounds.is_valid()
    }

    /// Twice the centroid's coordinate on `axis`: the key every strategy
    /// orders by.
    pub open spec fn key(self, axis: int) -> int {
        self.bounds.min.coord(axis) + self.bounds.max.coord(axis)
    }

    /// A primitive over `bounds`, when that box covers space and lies on the grid.
    pub fn try_new(bounds: AxisAlignedBoundingBox, index: usize) -> (r: Option<Primitive>)
        ensures
            r is Some <==> bounds.is_valid(),
            r matches Some(p) ==> p.bounds == bounds && p.index == index && p.wf(),
    {
        if bounds.is_valid_box() {
            Some(Primitive { bounds, index })
        } else {
            None
        }
    }

    pub fn centroid_key(&self, axis: usize) -> (r: i128)
        requires
            axis < 3,
        ensures
            r == self.key(axis as int),
    {
        self.bounds.min.get(axis) as i128 + self.bounds.max.get(axis) as i128
    }
}

pub open spec fn all_wf(s: Seq<Primitive>) -> bool {
    forall|i: int| 0 <= i < s.len() ==> (#[trigger] s[i]).wf()
}

/// `after` holds the elements of `before` with those of `start..end`
/// reordered among themselves and all others in place.
pub open spec fn rearranged(before: Seq<Primitive>, after: Seq<Primitive>, start: int, end: int) -> bool {
    &&& after.len() == before.len()
    &&& forall|i: int| 0 <= i < before.len() && !(start <= i < end) ==> after[i] == before[i]
    &&& after.subrange(start, end).to_multiset() == before.subrange(start, end).to_multiset()
}

/// The union of the boxes of `s`.
pub open spec fn prims_bounds(s: Seq<Primitive>) -> AxisAlignedBoundingBox
    decreases s.len(),
{
    if s.len() == 0 {
        AxisAlignedBoundingBox::spec_null_box()
    } else {
        prims_bounds(s.drop_last()).spec_union_box(s.last().bounds)
    }
}

/// The box of the doubled centroids of `s`.
pub open spec fn centroid_bounds(s: Seq<Primitive>) -> AxisAlignedBoundingBox
    decreases s.len(),
{
    if s.len() == 0 {
        AxisAlignedBoundingBox::spec_null_box()
    } else {
        centroid_bounds(s.drop_last()).spec_union_point(s.last().bounds.spec_double_center())
    }
}

/// The axis of greatest extent; a tie goes to the later axis.
pub open spec fn spec_select_axis(b: AxisAlignedBoundingBox) -> int {
    let ex = b.extent(0);
    let ey = b.extent(1);
    let ez = b.extent(2);
    if ez >= ex && ez >= ey {
        2
    } else if ey >= ex {
        1
    } else {
        0
    }
}

pub open spec fn subrun(s: Seq<Primitive>, start: usize, end: usize) -> Seq<Primitive> {
    s.subrange(start as int, end as int)
}

/// Bounds of the key on every axis over a non-empty run of valid primitives.
pub proof fn lemma_centroid_bounds(s: Seq<Primitive>)
    requires
        all_wf(s),
        s.len() > 0,
    ensures
        forall|a: int|
            0 <= a < 3 ==> -2 * GRID_LIMIT <= #[trigger] centroid_bounds(s).min.coord(a)
                <= centroid_bounds(s).max.coord(a) <= 2 * GRID_LIMIT,
        forall|i: int, a: int|
            0 <= i < s.len() && 0 <= a < 3 ==> centroid_bounds(s).min.coord(a) <= #[trigger] s[i].key(a)
                <= centroid_bounds(s).max.coord(a),
    decreases s.len(),
{
    let last = s.last();
    assert(last.wf());
    let cb = centroid_bounds(s);
    if s.len() == 1 {
        assert(centroid_bounds(s.drop_last()) == AxisAlignedBoundingBox::spec_null_box());
        assert(cb == AxisAlignedBoundingBox::point_box(last.bounds.spec_double_center()));
        assert(s[0] == last);
    } else {
        lemma_centroid_bounds(s.drop_last());
        assert forall|i: int, a: int|
            0 <= i < s.len() && 0 <= a < 3 implies centroid_bounds(s).min.coord(a) <= #[trigger] s[i].key(a)
                <= centroid_bounds(s).max.coord(a) by {
            if i < s.len() - 1 {
                assert(s.drop_last()[i] == s[i]);
            }
        }
        let p = centroid_bounds(s.drop_last());
        assert(p.min.coord(0) <= p.max.coord(0));
        assert(p.min.coord(1) <= p.max.coord(1));
        assert(p.min.coord(2) <= p.max.coord(2));
    }
    assert forall|a: int| 0 <= a < 3 implies -2 * GRID_LIMIT <= #[trigger] cb.min.coord(a)
        <= cb.max.coord(a) <= 2 * GRID_LIMIT by {
        assert(cb.min.coord(a) <= last.key(a) <= cb.max.coord(a));
        if s.len() > 1 {
            let p = centroid_bounds(s.drop_last());
            assert(-2 * GRID_LIMIT <= p.min.coord(a) <= p.max.coord(a) <= 2 * GRID_LIMIT);
        }
    }
}

/// The union of the boxes of a run encloses each of them; for valid
/// primitives it lies on the grid, and covers space when the run is not empty.
pub proof fn lemma_prims_bounds(s: Seq<Primitive>)
    ensures
        all_wf(s) ==> prims_bounds(s).wf(),
        all_wf(s) && s.len() > 0 ==> prims_bounds(s).is_valid(),
        forall|i: int| 0 <= i < s.len() ==> prims_bounds(s).encloses((#[trigger] s[i]).bounds),
    decreases s.len(),
{
    if s.len() > 0 {
        lemma_prims_bounds(s.drop_last());
        assert(all_wf(s) ==> all_wf(s.drop_last())) by {
            if all_wf(s) {
                assert forall|i: int| 0 <= i < s.drop_last().len() implies (
                #[trigger] s.drop_last()[i]).wf() by {
                    assert(s.drop_last()[i] == s[i]);
                }
            }
        }
        assert(all_wf(s) ==> s.last().wf()) by {
            if all_wf(s) {
                assert(s[s.len() - 1].wf());
            }
        }
        assert forall|i: int| 0 <= i < s.len() implies prims_bounds(s).encloses(
            (#[trigger] s[i]).bounds,
        ) by {
            if i < s.len() - 1 {
                assert(s.drop_last()[i] == s[i]);
            }
        }
    }
}

/// A rearranged run keeps every element valid.
pub proof fn lemma_rearranged(before: Seq<Primitive>, after: Seq<Primitive>, start: int, end: int)
    requires
        0 <= start <= end <= before.len(),
        rearranged(before, after, start, end),
        all_wf(before),
    ensures
        all_wf(after),
{
    assert forall|i: int| 0 <= i < after.len() implies (#[trigger] after[i]).wf() by {
        if start <= i < end {
            let j = lemma_rearranged_member(before, after, start, end, i);
        }
    }
}

/// Each element of a rearranged run was an element of the run before.
pub proof fn lemma_rearranged_member(
    before: Seq<Primitive>,
    after: Seq<Primitive>,
    start: int,
    end: int,
    i: int,
) -> (j: int)
    requires
        0 <= start <= i < end <= before.len(),
        rearranged(before, after, start, end),
    ensures
        start <= j < end,
        before[j] == after[i],
{
    let b = before.subrange(start, end);
    let a = after.subrange(start, end);
    assert(a[i - start] == after[i]);
    a.to_multiset_ensures();
    b.to_multiset_ensures();
    assert(a.contains(after[i]));
    assert(a.to_multiset().count(after[i]) > 0);
    assert(b.to_multiset().count(after[i]) > 0);
    assert(b.contains(after[i]));
    let j = choose|j: int| 0 <= j < b.len() && b[j] == after[i];
    assert(before[start + j] == b[j]);
    start + j
}

/// Partition completeness: after a rearrangement of `start..end` and a cut
/// at `k`, the two sub-runs together hold exactly the run's former
/// elements, and their lengths add up to its length.
pub proof fn lemma_partition_complete(
    before: Seq<Primitive>,
    after: Seq<Primitive>,
    start: int,
    k: int,
    end: int,
)
    requires
        0 <= start <= k <= end <= before.len(),
        rearranged(before, after, start, end),
    ensures
        after.subrange(start, k).to_multiset().add(after.subrange(k, end).to_multiset())
            == before.subrange(start, end).to_multiset(),
        after.subrange(start, k).len() + after.subrange(k, end).len() == end - start,
{
    assert(after.subrange(start, k) + after.subrange(k, end) =~= after.subrange(start, end));
    vstd::seq_lib::lemma_multiset_commutative(after.subrange(start, k), after.subrange(k, end));
}

/// The axis of greatest extent of the doubled centroids of `start..end`,
/// and their box.
pub fn select_axis(prims: &Vec<Primitive>, start: usize, end: usize) -> (r: (
    usize,
    AxisAlignedBoundingBox,
))
    requires
        start < end <= prims@.len(),
        all_wf(prims@),
    ensures
        r.1 == centroid_bounds(subrun(prims@, start, end)),
        r.0 == spec_select_axis(r.1),
{
    let mut bounds = AxisAlignedBoundingBox::null_box();
    let mut i = start;
    while i < end
        invariant
            start <= i <= end <= prims@.len(),
            all_wf(prims@),
            bounds == centroid_bounds(subrun(prims@, start, i)),
        decreases end - i,
    {
        assert(subrun(prims@, start, (i + 1) as usize).drop_last() =~= subrun(prims@, start, i));
        assert(prims@[i as int].wf());
        let c = prims[i].bounds.double_center();
        bounds = bounds.union_point(c);
        i = i + 1;
    }
    let ghost s = subrun(prims@, start, end);
    proof {
        assert forall|j: int| 0 <= j < s.len() implies (#[trigger] s[j]).wf() by {
            assert(s[j] == prims@[start + j]);
        }
        lemma_centroid_bounds(s);
        assert(-2 * GRID_LIMIT <= bounds.min.coord(0) <= bounds.max.coord(0) <= 2 * GRID_LIMIT);
        assert(-2 * GRID_LIMIT <= bounds.min.coord(1) <= bounds.max.coord(1) <= 2 * GRID_LIMIT);
        assert(-2 * GRID_LIMIT <= bounds.min.coord(2) <= bounds.max.coord(2) <= 2 * GRID_LIMIT);
    }
    let ex = bounds.max.x - bounds.min.x;
    let ey = bounds.max.y - bounds.min.y;
    let ez = bounds.max.z - bounds.min.z;
    let axis: usize = if ez >= ex && ez >= ey {
        2
    } else if ey >= ex {
        1
    } else {
        0
    };
    (axis, bounds)
}

/// Orders two primitives by their key on `axis`.
pub fn compare_keys(a: &Primitive, b: &Primitive, axis: usize) -> (r: core::cmp::Ordering)
    requires
        axis < 3,
    ensures
        (r == core::cmp::Ordering::Less) == (a.key(axis as int) < b.key(axis as int)),
        (r == core::cmp::Ordering::Equal) == (a.key(axis as int) == b.key(axis as int)),
        (r == core::cmp::Ordering::Greater) == (a.key(axis as int) > b.key(axis as int)),
{
    let ka = a.centroid_key(axis);
    let kb = b.centroid_key(axis);
    if ka < kb {
        core::cmp::Ordering::Less
    } else if ka == kb {
        core::cmp::Ordering::Equal
    } else {
        core::cmp::Ordering::Greater
    }
}

/// `scale * key(axis) < threshold`: on which side of a cut a primitive lies.
pub open spec fn spec_lies_below(p: Primitive, axis: int, scale: i128, threshold: i128) -> bool {
    scale * p.key(axis) < threshold
}

pub fn lies_below(p: &Primitive, axis: usize, scale: i128, threshold: i128) -> (r: bool)
    requires
        axis < 3,
        p.wf(),
        -16 <= scale <= 16,
    ensures
        r == spec_lies_below(*p, axis as int, scale, threshold),
{
    let k = p.centroid_key(axis);
    assert(-2 * GRID_LIMIT <= k <= 2 * GRID_LIMIT);
    assert(-32 * GRID_LIMIT <= scale * k <= 32 * GRID_LIMIT) by (nonlinear_arith)
        requires
            -2 * GRID_LIMIT <= k <= 2 * GRID_LIMIT,
            -16 <= scale <= 16,
    ;
    scale * k < threshold
}

/// Relies on `slice::select_nth_unstable_by`: the run `start..end` is
/// reordered so that its element at `nth` (counted from `start`) has no
/// greater key before it and no smaller key after it.
#[verifier::external_body]
fn select_nth_by_key(prims: &mut Vec<Primitive>, start: usize, end: usize, nth: usize, axis: usize)
    requires
        start <= end <= old(prims)@.len(),
        nth < end - start,
        axis < 3,
    ensures
        rearranged(old(prims)@, final(prims)@, start as int, end as int),
        forall|i: int|
            start <= i < start + nth ==> (#[trigger] final(prims)@[i]).key(axis as int)
                <= final(prims)@[start + nth].key(axis as int),
        forall|i: int|
            start + nth < i < end ==> final(prims)@[start + nth].key(axis as int)
                <= (#[trigger] final(prims)@[i]).key(axis as int),
{
    prims[start..end].select_nth_unstable_by(nth, |a, b| compare_keys(a, b, axis));
}

/// Relies on `partition::partition`: the run `start..end` is reordered so
/// that the primitives for which `lies_below` holds come first; the result
/// is how many they are.
#[verifier::external_body]
fn partition_below(
    prims: &mut Vec<Primitive>,
    start: usize,
    end: usize,
    axis: usize,
    scale: i128,
    threshold: i128,
) -> (r: usize)
    requires
        start <= end <= old(prims)@.len(),
        axis < 3,
        -16 <= scale <= 16,
        all_wf(old(prims)@),
    ensures
        rearranged(old(prims)@, final(prims)@, start as int, end as int),
        r <= end - start,
        forall|i: int|
            start <= i < start + r ==> spec_lies_below(
                #[trigger] final(prims)@[i],
                axis as int,
                scale,
                threshold,
            ),
        forall|i: int|
            start + r <= i < end ==> !spec_lies_below(
                #[trigger] final(prims)@[i],
                axis as int,
                scale,
                threshold,
            ),
{
    partition::partition(&mut prims[start..end], |p| lies_below(p, axis, scale, threshold)).0.len()
}

/// What the median split leaves behind: runs under three primitives stay
/// whole; longer ones are cut at their middle index, with no key on the
/// chosen axis before the cut greater than a key after it.
pub open spec fn equal_split_result(
    before: Seq<Primitive>,
    after: Seq<Primitive>,
    start: usize,
    end: usize,
    r: Option<usize>,
) -> bool {
    let axis = spec_select_axis(centroid_bounds(subrun(before, start, end)));
    let mid = start + (end - start) / 2;
    if end - start < 3 {
        r == None::<usize> && after == before
    } else {
        &&& r == Some(mid as usize)
        &&& rearranged(before, after, start as int, end as int)
        &&& forall|i: int, j: int|
            start <= i < mid && mid <= j < end ==> (#[trigger] after[i]).key(axis) <= (
            #[trigger] after[j]).key(axis)
    }
}

/// Median split: the run is cut in two halves by count along the axis of
/// greatest centroid extent.
pub fn split_equal(prims: &mut Vec<Primitive>, start: usize, end: usize) -> (r: Option<usize>)
    requires
        start <= end <= old(prims)@.len(),
        all_wf(old(prims)@),
    ensures
        rearranged(old(prims)@, final(prims)@, start as int, end as int),
        equal_split_result(old(prims)@, final(prims)@, start, end, r),
        r is None <==> end - start < 3,
{
    if end - start < 3 {
        return None;
    }
    let (axis, _) = select_axis(prims, start, end);
    let middle = (end - start) / 2;
    select_nth_by_key(prims, start, end, middle, axis);
    let mid = start + middle;
    proof {
        let a = axis as int;
        assert forall|i: int, j: int|
            start <= i < mid && mid <= j < end implies (#[trigger] prims@[i]).key(a) <= (
            #[trigger] prims@[j]).key(a) by {
            assert(prims@[i].key(a) <= prims@[mid as int].key(a));
            if j > mid {
                assert(prims@[mid as int].key(a) <= prims@[j].key(a));
            }
        }
    }
    Some(mid)
}

/// The midpoint split keeps `run` whole: it holds fewer than three
/// primitives, or all their centroids fall on one side of the midpoint of
/// the centroids' extent on the chosen axis.
pub open spec fn middle_declines(run: Seq<Primitive>) -> bool {
    let cb = centroid_bounds(run);
    let axis = spec_select_axis(cb);
    let twice_mid = cb.min.coord(axis) + cb.max.coord(axis);
    ||| run.len() < 3
    ||| forall|i: int| 0 <= i < run.len() ==> 2 * (#[trigger] run[i]).key(axis) >= twice_mid
    ||| forall|i: int| 0 <= i < run.len() ==> 2 * (#[trigger] run[i]).key(axis) < twice_mid
}

/// What the midpoint split leaves behind: a run it keeps whole is left as it
/// was; any other is reordered so that the primitives whose centroid lies
/// below the midpoint of the centroids' extent on the chosen axis come
/// first, and is cut where they end. Both sides are then non-empty.
pub open spec fn middle_split_result(
    before: Seq<Primitive>,
    after: Seq<Primitive>,
    start: usize,
    end: usize,
    r: Option<usize>,
) -> bool {
    let cb = centroid_bounds(subrun(before, start, end));
    let axis = spec_select_axis(cb);
    let twice_mid = cb.min.coord(axis) + cb.max.coord(axis);
    if middle_declines(subrun(before, start, end)) {
        r == None::<usize> && after == before
    } else {
        &&& r is Some
        &&& start < r->0 < end
        &&& rearranged(before, after, start as int, end as int)
        &&& forall|i: int| start <= i < r->0 ==> 2 * (#[trigger] after[i]).key(axis) < twice_mid
        &&& forall|i: int| r->0 <= i < end ==> 2 * (#[trigger] after[i]).key(axis) >= twice_mid
    }
}

/// Whether some primitive of `start..end` lies below a cut, and whether some
/// does not.
fn sides_occupied(
    prims: &Vec<Primitive>,
    start: usize,
    end: usize,
    axis: usize,
    scale: i128,
    threshold: i128,
) -> (r: (bool, bool))
    requires
        start <= end <= prims@.len(),
        axis < 3,
        -16 <= scale <= 16,
        all_wf(prims@),
    ensures
        r.0 == (exists|i: int|
            start <= i < end && spec_lies_below(#[trigger] prims@[i], axis as int, scale, threshold)),
        r.1 == (exists|i: int|
            start <= i < end && !spec_lies_below(#[trigger] prims@[i], axis as int, scale, threshold)),
{
    let mut below = false;
    let mut above = false;
    let mut i = start;
    while i < end
        invariant
            start <= i <= end <= prims@.len(),
            axis < 3,
            -16 <= scale <= 16,
            all_wf(prims@),
            below == (exists|j: int|
                start <= j < i && spec_lies_below(#[trigger] prims@[j], axis as int, scale, threshold)),
            above == (exists|j: int|
                start <= j < i && !spec_lies_below(#[trigger] prims@[j], axis as int, scale, threshold)),
        decreases end - i,
    {
        assert(prims@[i as int].wf());
        if lies_below(&prims[i], axis, scale, threshold) {
            below = true;
        } else {
            above = true;
        }
        i = i + 1;
    }
    (below, above)
}

/// A rearrangement read backwards is a rearrangement.
proof fn lemma_rearranged_symmetric(before: Seq<Primitive>, after: Seq<Primitive>, start: int, end: int)
    requires
        rearranged(before, after, start, end),
    ensures
        rearranged(after, before, start, end),
{
}

/// Midpoint split: the run is divided at the midpoint of its centroids'
/// extent along the axis where that extent is greatest. A run whose
/// centroids all fall on one side is kept whole. The partition swaps
/// elements, so the order within each side is not kept.
pub fn split_middle(prims: &mut Vec<Primitive>, start: usize, end: usize) -> (r: Option<usize>)
    requires
        start <= end <= old(prims)@.len(),
        all_wf(old(prims)@),
    ensures
        rearranged(old(prims)@, final(prims)@, start as int, end as int),
        middle_split_result(old(prims)@, final(prims)@, start, end, r),
        r is None <==> middle_declines(subrun(old(prims)@, start, end)),
{
    if end - start < 3 {
        return None;
    }
    let ghost before = prims@;
    let ghost run = subrun(prims@, start, end);
    let (axis, centroids) = select_axis(prims, start, end);
    proof {
        lemma_centroid_bounds(subrun(prims@, start, end));
        assert(-2 * GRID_LIMIT <= centroids.min.coord(axis as int) <= 2 * GRID_LIMIT);
        assert(-2 * GRID_LIMIT <= centroids.max.coord(axis as int) <= 2 * GRID_LIMIT);
    }
    let twice_mid = centroids.min.get(axis) as i128 + centroids.max.get(axis) as i128;
    let ghost a = axis as int;
    let (any_below, any_above) = sides_occupied(prims, start, end, axis, 2, twice_mid);
    if !any_below || !any_above {
        proof {
            if !any_below {
                assert forall|i: int| 0 <= i < run.len() implies 2 * (#[trigger] run[i]).key(a)
                    >= twice_mid by {
                    assert(run[i] == prims@[start + i]);
                    assert(!spec_lies_below(prims@[start + i], a, 2, twice_mid));
                }
            } else {
                assert forall|i: int| 0 <= i < run.len() implies 2 * (#[trigger] run[i]).key(a)
                    < twice_mid by {
                    assert(run[i] == prims@[start + i]);
                    assert(spec_lies_below(prims@[start + i], a, 2, twice_mid));
                }
            }
        }
        return None;
    }
    let below = partition_below(prims, start, end, axis, 2, twice_mid);
    let k = start + below;
    proof {
        let after = prims@;
        lemma_rearranged_symmetric(before, after, start as int, end as int);
        let i0 = choose|i: int| start <= i < end && spec_lies_below(#[trigger] before[i], a, 2, twice_mid);
        let j0 = lemma_rearranged_member(after, before, start as int, end as int, i0);
        assert(spec_lies_below(after[j0], a, 2, twice_mid));
        let i1 = choose|i: int| start <= i < end && !spec_lies_below(#[trigger] before[i], a, 2, twice_mid);
        let j1 = lemma_rearranged_member(after, before, start as int, end as int, i1);
        assert(!spec_lies_below(after[j1], a, 2, twice_mid));
        assert(!(forall|i: int| 0 <= i < run.len() ==> 2 * (#[trigger] run[i]).key(a) >= twice_mid)) by {
            assert(run[i0 - start] == before[i0]);
        }
        assert(!(forall|i: int| 0 <= i < run.len() ==> 2 * (#[trigger] run[i]).key(a) < twice_mid)) by {
            assert(run[i1 - start] == before[i1]);
        }
    }
    Some(k)
}

/// A strategy that divides the run `start..end` of `prims` while a
/// hierarchy is built. It may only reorder the run. `None` asks for a leaf
/// and leaves the run as it was; it comes exactly on the runs the strategy
/// `declines`. `Some(k)` asks for two children over the non-empty runs
/// `start..k` and `k..end`.
pub trait Split {
    /// The strategy keeps `run` whole, as a leaf.
    spec fn declines(&self, run: Seq<Primitive>) -> bool;

    fn split(&self, prims: &mut Vec<Primitive>, start: usize, end: usize) -> (r: Option<usize>)
        requires
            start <= end <= old(prims)@.len(),
            end - start <= u32::MAX,
            all_wf(old(prims)@),
        ensures
            rearranged(old(prims)@, final(prims)@, start as int, end as int),
            r matches Some(k) ==> start < k < end,
            r is None ==> final(prims)@ == old(prims)@,
            r is None <==> self.declines(subrun(old(prims)@, start, end)),
    ;
}

/// Cuts runs at their median centroid.
#[derive(Clone, Copy, Debug)]
pub struct Equal;

/// Cuts runs at the spatial midpoint of their centroids.
#[derive(Clone, Copy, Debug)]
pub struct Middle;

/// Cuts runs where the surface area heuristic finds the cheapest cut.
#[derive(Clone, Copy, Debug)]
pub struct SurfaceArea;

impl Split for Equal {
    /// Runs of fewer than three primitives stay whole.
    open spec fn declines(&self, run: Seq<Primitive>) -> bool {
        run.len() < 3
    }

    fn split(&self, prims: &mut Vec<Primitive>, start: usize, end: usize) -> (r: Option<usize>)
        ensures
            equal_split_result(old(prims)@, final(prims)@, start, end, r),
    {
        split_equal(prims, start, end)
    }
}

impl Split for Middle {
    open spec fn declines(&self, run: Seq<Primitive>) -> bool {
        middle_declines(run)
    }

    fn split(&self, prims: &mut Vec<Primitive>, start: usize, end: usize) -> (r: Option<usize>)
        ensures
            middle_split_result(old(prims)@, final(prims)@, start, end, r),
    {
        split_middle(prims, start, end)
    }
}

/// How many equal-width buckets the surface area heuristic sorts centroids into.
pub const BUCKET_COUNT: usize = 12;

/// The bucket of `p` along `axis` of the centroid box `cb`: its centroid's
/// fractional position in the box, times the bucket count, rounded down;
/// the top edge falls in the last bucket, and an axis without extent
/// leaves everything in the first.
pub open spec fn bucket_of(p: Primitive, axis: int, cb: AxisAlignedBoundingBox) -> int {
    let ext = cb.extent(axis);
    let b = (12 * (p.key(axis) - cb.min.coord(axis))) / ext;
    if ext <= 0 || b < 0 {
        0
    } else if b >= 12 {
        11
    } else {
        b
    }
}

/// Count and box union of each bucket, after sorting the primitives of `s`.
pub open spec fn bucket_summary(s: Seq<Primitive>, axis: int, cb: AxisAlignedBoundingBox) -> Seq<
    (int, AxisAlignedBoundingBox),
>
    decreases s.len(),
{
    if s.len() == 0 {
        Seq::new(12, |i: int| (0int, AxisAlignedBoundingBox::spec_null_box()))
    } else {
        let prev = bucket_summary(s.drop_last(), axis, cb);
        let b = bucket_of(s.last(), axis, cb);
        prev.update(b, (prev[b].0 + 1, prev[b].1.spec_union_box(s.last().bounds)))
    }
}

/// Total count and box union of a run of buckets.
pub open spec fn side_summary(bs: Seq<(int, AxisAlignedBoundingBox)>) -> (int, AxisAlignedBoundingBox)
    decreases bs.len(),
{
    if bs.len() == 0 {
        (0, AxisAlignedBoundingBox::spec_null_box())
    } else {
        let prev = side_summary(bs.drop_last());
        (prev.0 + bs.last().0, prev.1.spec_union_box(bs.last().1))
    }
}

/// `count_left * area_left + count_right * area_right` for a cut before
/// bucket `i`: the cost of the cut, less the fixed traversal cost, times the
/// parent's surface area.
pub open spec fn split_weight(bs: Seq<(int, AxisAlignedBoundingBox)>, i: int) -> int {
    let l = side_summary(bs.subrange(0, i));
    let r = side_summary(bs.subrange(i, bs.len() as int));
    l.0 * l.1.spec_surface_area() + r.0 * r.1.spec_surface_area()
}

/// The first of the cuts `1..=j` of least weight.
pub open spec fn best_split_upto(bs: Seq<(int, AxisAlignedBoundingBox)>, j: int) -> int
    decreases j,
{
    if j <= 1 {
        1
    } else {
        let p = best_split_upto(bs, j - 1);
        if split_weight(bs, j) < split_weight(bs, p) {
            j
        } else {
            p
        }
    }
}

/// The surface area heuristic keeps `run` whole: a run of four or fewer
/// that the median split keeps whole; or a longer one whose parent has no
/// area, whose cheapest cut between buckets, with cost
/// `1/8 + weight / parent_area`, is not below the run's length, or whose
/// primitives all fall on one side of that cut.
pub open spec fn sah_declines(run: Seq<Primitive>) -> bool {
    let n = run.len();
    let cb = centroid_bounds(run);
    let axis = spec_select_axis(cb);
    let bs = bucket_summary(run, axis, cb);
    let cut = best_split_upto(bs, 11);
    let area = prims_bounds(run).spec_surface_area();
    if n <= 4 {
        n < 3
    } else {
        ||| !(area > 0 && 8 * n * area > area + 8 * split_weight(bs, cut))
        ||| forall|i: int| 0 <= i < n ==> bucket_of(#[trigger] run[i], axis, cb) >= cut
        ||| forall|i: int| 0 <= i < n ==> bucket_of(#[trigger] run[i], axis, cb) < cut
    }
}

/// What the surface area heuristic leaves behind. Runs of four or fewer go
/// to the median split. A longer run it keeps whole is left as it was; any
/// other is reordered so that the primitives of the buckets before the
/// cheapest cut come first, and is cut where they end.
pub open spec fn sah_split_result(
    before: Seq<Primitive>,
    after: Seq<Primitive>,
    start: usize,
    end: usize,
    r: Option<usize>,
) -> bool {
    let s = subrun(before, start, end);
    let cb = centroid_bounds(s);
    let axis = spec_select_axis(cb);
    let cut = best_split_upto(bucket_summary(s, axis, cb), 11);
    if end - start <= 4 {
        equal_split_result(before, after, start, end, r)
    } else if sah_declines(s) {
        r == None::<usize> && after == before
    } else {
        &&& r is Some
        &&& start < r->0 < end
        &&& rearranged(before, after, start as int, end as int)
        &&& forall|i: int| start <= i < r->0 ==> bucket_of(#[trigger] after[i], axis, cb) < cut
        &&& forall|i: int| r->0 <= i < end ==> bucket_of(#[trigger] after[i], axis, cb) >= cut
    }
}

struct BucketInfo {
    count: u64,
    bounds: AxisAlignedBoundingBox,
}

spec fn bucket_view(v: Seq<BucketInfo>) -> Seq<(int, AxisAlignedBoundingBox)> {
    Seq::new(v.len(), |i: int| (v[i].count as int, v[i].bounds))
}

proof fn lemma_bucket_summary(s: Seq<Primitive>, axis: int, cb: AxisAlignedBoundingBox)
    requires
        all_wf(s),
    ensures
        bucket_summary(s, axis, cb).len() == 12,
        forall|b: int|
            0 <= b < 12 ==> 0 <= (#[trigger] bucket_summary(s, axis, cb)[b]).0 <= s.len()
                && bucket_summary(s, axis, cb)[b].1.wf(),
    decreases s.len(),
{
    if s.len() > 0 {
        lemma_bucket_summary(s.drop_last(), axis, cb);
        assert(s.last().wf());
        let prev = bucket_summary(s.drop_last(), axis, cb);
        let b = bucket_of(s.last(), axis, cb);
        crate::aabb::lemma_union_encloses(prev[b].1, s.last().bounds);
    }
}

/// The union of the boxes of the run `start..end`.
pub fn run_bounds(prims: &Vec<Primitive>, start: usize, end: usize) -> (r: AxisAlignedBoundingBox)
    requires
        start <= end <= prims@.len(),
        all_wf(prims@),
    ensures
        r == prims_bounds(subrun(prims@, start, end)),
        r.wf(),
        start < end ==> r.is_valid(),
{
    let mut bounds = AxisAlignedBoundingBox::null_box();
    let mut i = start;
    while i < end
        invariant
            start <= i <= end <= prims@.len(),
            bounds == prims_bounds(subrun(prims@, start, i)),
        decreases end - i,
    {
        assert(subrun(prims@, start, (i + 1) as usize).drop_last() =~= subrun(prims@, start, i));
        bounds = bounds.union_box(prims[i].bounds);
        i = i + 1;
    }
    proof {
        let s = subrun(prims@, start, end);
        assert forall|j: int| 0 <= j < s.len() implies (#[trigger] s[j]).wf() by {
            assert(s[j] == prims@[start + j]);
        }
        lemma_prims_bounds(s);
    }
    bounds
}

fn bucket_index(p: &Primitive, axis: usize, cb: &AxisAlignedBoundingBox) -> (r: usize)
    requires
        axis < 3,
        -2 * GRID_LIMIT <= cb.min.coord(axis as int) <= p.key(axis as int) <= cb.max.coord(
            axis as int,
        ) <= 2 * GRID_LIMIT,
    ensures
        r == bucket_of(*p, axis as int, *cb),
        r < 12,
{
    let lo = cb.min.get(axis);
    let hi = cb.max.get(axis);
    let key = p.centroid_key(axis);
    let off = (key - lo as i128) as u128;
    let ext = (hi as i128 - lo as i128) as u128;
    if ext == 0 {
        return 0;
    }
    assert(12 * off <= 12 * ext);
    let b = (12 * off) / ext;
    proof {
        assert(b <= 12) by {
            vstd::arithmetic::div_mod::lemma_div_is_ordered((12 * off) as int, (12 * ext) as int, ext as int);
            vstd::arithmetic::div_mod::lemma_div_multiples_vanish(12, ext as int);
        }
    }
    if b >= 12 {
        11
    } else {
        b as usize
    }
}

fn sum_buckets(buckets: &Vec<BucketInfo>, lo: usize, hi: usize) -> (r: (u64, AxisAlignedBoundingBox))
    requires
        lo <= hi <= buckets@.len() <= 12,
        forall|b: int|
            0 <= b < buckets@.len() ==> (#[trigger] buckets@[b]).count <= u32::MAX
                && buckets@[b].bounds.wf(),
    ensures
        r.0 == side_summary(bucket_view(buckets@).subrange(lo as int, hi as int)).0,
        r.1 == side_summary(bucket_view(buckets@).subrange(lo as int, hi as int)).1,
        r.0 <= 12 * u32::MAX,
        r.1.wf(),
{
    let ghost v = bucket_view(buckets@);
    let mut count: u64 = 0;
    let mut bounds = AxisAlignedBoundingBox::null_box();
    let mut j = lo;
    while j < hi
        invariant
            lo <= j <= hi <= buckets@.len() <= 12,
            v == bucket_view(buckets@),
            forall|b: int|
                0 <= b < buckets@.len() ==> (#[trigger] buckets@[b]).count <= u32::MAX
                    && buckets@[b].bounds.wf(),
            count == side_summary(v.subrange(lo as int, j as int)).0,
            bounds == side_summary(v.subrange(lo as int, j as int)).1,
            count <= (j - lo) * u32::MAX,
            bounds.wf(),
        decreases hi - j,
    {
        assert(v.subrange(lo as int, j + 1).drop_last() =~= v.subrange(lo as int, j as int));
        assert(buckets@[j as int].count <= u32::MAX);
        proof {
            crate::aabb::lemma_union_encloses(bounds, buckets@[j as int].bounds);
        }
        count = count + buckets[j].count;
        bounds = bounds.union_box(buckets[j].bounds);
        j = j + 1;
    }
    (count, bounds)
}

fn weight_of(buckets: &Vec<BucketInfo>, i: usize) -> (r: i128)
    requires
        1 <= i < buckets@.len() == 12,
        forall|b: int|
            0 <= b < 12 ==> (#[trigger] buckets@[b]).count <= u32::MAX && buckets@[b].bounds.wf(),
    ensures
        r == split_weight(bucket_view(buckets@), i as int),
        0 <= r <= 2 * (12 * u32::MAX) * (24 * GRID_LIMIT * GRID_LIMIT),
{
    let (c0, b0) = sum_buckets(buckets, 0, i);
    let (c1, b1) = sum_buckets(buckets, i, 12);
    let a0 = b0.surface_area();
    let a1 = b1.surface_area();
    assert(bucket_view(buckets@).len() == 12);
    assert(0 <= c0 * a0 <= 12 * u32::MAX * (24 * GRID_LIMIT * GRID_LIMIT)) by (nonlinear_arith)
        requires
            0 <= c0 <= 12 * u32::MAX,
            0 <= a0 <= 24 * GRID_LIMIT * GRID_LIMIT,
    ;
    assert(0 <= c1 * a1 <= 12 * u32::MAX * (24 * GRID_LIMIT * GRID_LIMIT)) by (nonlinear_arith)
        requires
            0 <= c1 <= 12 * u32::MAX,
            0 <= a1 <= 24 * GRID_LIMIT * GRID_LIMIT,
    ;
    c0 as i128 * a0 + c1 as i128 * a1
}

proof fn lemma_bucket_threshold(key: int, lo: int, ext: int, cut: int)
    requires
        lo <= key <= lo + ext,
        ext > 0,
        1 <= cut <= 11,
    ensures
        ({
            let b = (12 * (key - lo)) / ext;
            let bucket = if b < 0 {
                0
            } else if b >= 12 {
                11
            } else {
                b
            };
            bucket < cut <==> 12 * key < cut * ext + 12 * lo
        }),
{
    let x = 12 * (key - lo);
    let b = x / ext;
    vstd::arithmetic::div_mod::lemma_fundamental_div_mod(x, ext);
    vstd::arithmetic::div_mod::lemma_mod_pos_bound(x, ext);
    vstd::arithmetic::div_mod::lemma_div_pos_is_pos(x, ext);
    assert(x == ext * b + x % ext);
    if b < cut {
        assert(ext * b + ext <= cut * ext) by (nonlinear_arith)
            requires
                b + 1 <= cut,
                ext > 0,
        ;
    } else {
        assert(cut * ext <= ext * b) by (nonlinear_arith)
            requires
                cut <= b,
                ext > 0,
        ;
    }
}

/// Surface area heuristic split of the run `start..end`.
#[verifier::rlimit(50)]
pub fn split_surface_area(prims: &mut Vec<Primitive>, start: usize, end: usize) -> (r: Option<usize>)
    requires
        start <= end <= old(prims)@.len(),
        end - start <= u32::MAX,
        all_wf(old(prims)@),
    ensures
        rearranged(old(prims)@, final(prims)@, start as int, end as int),
        sah_split_result(old(prims)@, final(prims)@, start, end, r),
        r is None <==> sah_declines(subrun(old(prims)@, start, end)),
{
    if end - start <= 4 {
        return split_equal(prims, start, end);
    }
    let ghost s = subrun(prims@, start, end);
    let (axis, centroids) = select_axis(prims, start, end);
    let bounds = run_bounds(prims, start, end);
    let area = bounds.surface_area();
    proof {
        assert forall|j: int| 0 <= j < s.len() implies (#[trigger] s[j]).wf() by {
            assert(s[j] == prims@[start + j]);
        }
        lemma_centroid_bounds(s);
        lemma_bucket_summary(s, axis as int, centroids);
    }
    let mut buckets: Vec<BucketInfo> = Vec::new();
    let mut b: usize = 0;
    while b < BUCKET_COUNT
        invariant
            b <= 12,
            buckets@.len() == b,
            forall|k: int|
                0 <= k < b ==> (#[trigger] buckets@[k]).count == 0 && buckets@[k].bounds
                    == AxisAlignedBoundingBox::spec_null_box(),
        decreases 12 - b,
    {
        buckets.push(BucketInfo { count: 0, bounds: AxisAlignedBoundingBox::null_box() });
        b = b + 1;
    }
    assert(bucket_view(buckets@) =~= bucket_summary(subrun(prims@, start, start), axis as int, centroids));
    let mut i = start;
    while i < end
        invariant
            start <= i <= end <= prims@.len(),
            end - start <= u32::MAX,
            axis < 3,
            s == subrun(prims@, start, end),
            all_wf(prims@),
            all_wf(s),
            centroids == centroid_bounds(s),
            forall|a: int|
                0 <= a < 3 ==> -2 * GRID_LIMIT <= #[trigger] centroids.min.coord(a)
                    <= centroids.max.coord(a) <= 2 * GRID_LIMIT,
            forall|j: int, a: int|
                0 <= j < s.len() && 0 <= a < 3 ==> centroids.min.coord(a) <= #[trigger] s[j].key(a)
                    <= centroids.max.coord(a),
            buckets@.len() == 12,
            bucket_view(buckets@) == bucket_summary(subrun(prims@, start, i), axis as int, centroids),
            forall|k: int|
                0 <= k < 12 ==> (#[trigger] buckets@[k]).count <= i - start
                    && buckets@[k].bounds.wf(),
        decreases end - i,
    {
        let ghost pre = subrun(prims@, start, i);
        let ghost next = subrun(prims@, start, (i + 1) as usize);
        assert(next.drop_last() =~= pre);
        assert(next.last() == s[i - start]);
        assert(prims@[i as int] == s[i - start]);
        assert(prims@[i as int].wf());
        let p = prims[i];
        assert(centroids.min.coord(axis as int) <= p.key(axis as int) <= centroids.max.coord(axis as int));
        let k = bucket_index(&p, axis, &centroids);
        let old_info = &buckets[k];
        proof {
            crate::aabb::lemma_union_encloses(old_info.bounds, p.bounds);
        }
        let info = BucketInfo { count: old_info.count + 1, bounds: old_info.bounds.union_box(p.bounds) };
        buckets.set(k, info);
        assert(bucket_view(buckets@) =~= bucket_summary(next, axis as int, centroids));
        i = i + 1;
    }
    assert(subrun(prims@, start, end) == s);
    let ghost bs = bucket_summary(s, axis as int, centroids);
    assert(bucket_view(buckets@) == bs);
    let mut best: usize = 1;
    let mut best_weight = weight_of(&buckets, 1);
    let mut j: usize = 2;
    while j < BUCKET_COUNT
        invariant
            2 <= j <= 12,
            buckets@.len() == 12,
            bucket_view(buckets@) == bs,
            forall|k: int|
                0 <= k < 12 ==> (#[trigger] buckets@[k]).count <= u32::MAX && buckets@[k].bounds.wf(),
            best == best_split_upto(bs, j - 1),
            1 <= best < 12,
            best_weight == split_weight(bs, best as int),
            0 <= best_weight <= 2 * (12 * u32::MAX) * (24 * GRID_LIMIT * GRID_LIMIT),
        decreases 12 - j,
    {
        let w = weight_of(&buckets, j);
        if w < best_weight {
            best = j;
            best_weight = w;
        }
        j = j + 1;
    }
    let n = (end - start) as i128;
    assert(0 <= 8 * n * area <= 8 * u32::MAX * (24 * GRID_LIMIT * GRID_LIMIT)) by (nonlinear_arith)
        requires
            0 <= n <= u32::MAX,
            0 <= area <= 24 * GRID_LIMIT * GRID_LIMIT,
    ;
    if area == 0 || 8 * n * area <= area + 8 * best_weight {
        return None;
    }
    let lo = centroids.min.get(axis);
    let ext = centroids.max.get(axis) as i128 - lo as i128;
    assert(centroids.min.coord(axis as int) <= centroids.max.coord(axis as int));
    assert(0 <= best * ext <= 12 * (4 * GRID_LIMIT)) by (nonlinear_arith)
        requires
            0 <= ext <= 4 * GRID_LIMIT,
            1 <= best < 12,
    ;
    let (scale, threshold): (i128, i128) = if ext == 0 {
        (0, 1)
    } else {
        (12, best as i128 * ext + 12 * lo as i128)
    };
    let ghost a = axis as int;
    let ghost before = prims@;
    proof {
        assert forall|i: int| 0 <= i < s.len() implies (bucket_of(#[trigger] s[i], a, centroids)
            < best <==> spec_lies_below(s[i], a, scale, threshold)) by {
            if ext != 0 {
                lemma_bucket_threshold(s[i].key(a), lo as int, ext as int, best as int);
            }
        }
    }
    let (any_below, any_above) = sides_occupied(prims, start, end, axis, scale, threshold);
    if !any_below || !any_above {
        proof {
            if !any_below {
                assert forall|i: int| 0 <= i < s.len() implies bucket_of(#[trigger] s[i], a, centroids)
                    >= best by {
                    assert(s[i] == prims@[start + i]);
                }
            } else {
                assert forall|i: int| 0 <= i < s.len() implies bucket_of(#[trigger] s[i], a, centroids)
                    < best by {
                    assert(s[i] == prims@[start + i]);
                }
            }
        }
        return None;
    }
    let below = partition_below(prims, start, end, axis, scale, threshold);
    proof {
        let after = prims@;
        let k = start + below;
        assert forall|i: int| start <= i < end implies (bucket_of(#[trigger] after[i], a, centroids) < best
            <==> i < k) by {
            let j = lemma_rearranged_member(before, after, start as int, end as int, i);
            assert(s[j - start] == before[j]);
        }
        lemma_rearranged_symmetric(before, after, start as int, end as int);
        let i0 = choose|i: int| start <= i < end && spec_lies_below(#[trigger] before[i], a, scale, threshold);
        let j0 = lemma_rearranged_member(after, before, start as int, end as int, i0);
        assert(s[i0 - start] == before[i0]);
        let i1 = choose|i: int| start <= i < end && !spec_lies_below(#[trigger] before[i], a, scale, threshold);
        let j1 = lemma_rearranged_member(after, before, start as int, end as int, i1);
        assert(s[i1 - start] == before[i1]);
        assert(!(forall|i: int| 0 <= i < s.len() ==> bucket_of(#[trigger] s[i], a, centroids) >= best));
        assert(!(forall|i: int| 0 <= i < s.len() ==> bucket_of(#[trigger] s[i], a, centroids) < best));
    }
    Some(start + below)
}

impl Split for SurfaceArea {
    open spec fn declines(&self, run: Seq<Primitive>) -> bool {
        sah_declines(run)
    }

    fn split(&self, prims: &mut Vec<Primitive>, start: usize, end: usize) -> (r: Option<usize>)
        ensures
            sah_split_result(old(prims)@, final(prims)@, start, end, r),
    {
        split_surface_area(prims, start, end)
    }
}

} // verus!
