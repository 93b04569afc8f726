//! Axis-aligned bounding boxes on an integer grid.
//!
//! Coordinates are grid units. A box whose `min` exceeds its `max` on some
//! axis covers no space; the null box, with `min` at `i64::MAX` and `max` at
//! `i64::MIN` on every axis, is the identity of `union_box`.
use vstd::prelude::*;

verus! {

/// Largest magnitude of a coordinate of a box that covers space.
pub const GRID_LIMIT: i64 = 1099511627776;

#[derive(Clone, Copy, Debug, PartialEq, Eq, Structural)]
pub struct GridPoint {
    pub x: i64,
    pub y: i64,
    pub z: i64,
}

pub open spec fn min_int(a: int, b: int) -> int {
    if a <= b {
        a
    } else {
        b
    }
}

pub open spec fn max_int(a: int, b: int) -> int {
    if a >= b {
        a
    } else {
        b
    }
}

fn min_i64(a: i64, b: i64) -> (r: i64)
    ensures
        r == min_int(a as int, b as int),
{
    if a <= b {
        a
    } else {
        b
    }
}

fn max_i64(a: i64, b: i64) -> (r: i64)
    ensures
        r == max_int(a as int, b as int),
{
    if a >= b {
        a
    } else {
        b
    }
}

impl GridPoint {
    /// The coordinate on `axis` (0, 1 or 2).
    pub open spec fn coord(self, axis: int) -> int {
        if axis == 0 {
            self.x as int
        } else if axis == 1 {
            self.y as int
        } else {
            self.z as int
        }
    }

    /// Every coordinate lies within `[-GRID_LIMIT, GRID_LIMIT]`.
    pub open spec fn in_grid(self) -> bool {
        &&& -GRID_LIMIT <= self.x <= GRID_LIMIT
        &&& -GRID_LIMIT <= self.y <= GRID_LIMIT
        &&& -GRID_LIMIT <= self.z <= GRID_LIMIT
    }

    pub fn new(x: i64, y: i64, z: i64) -> (r: GridPoint)
        ensures
            r == (GridPoint { x, y, z }),
    {
        GridPoint { x, y, z }
    }

    pub fn is_in_grid(&self) -> (r: bool)
        ensures
            r == self.in_grid(),
    {
        -GRID_LIMIT <= self.x && self.x <= GRID_LIMIT && -GRID_LIMIT <= self.y && self.y <= GRID_LIMIT
            && -GRID_LIMIT <= self.z && self.z <= GRID_LIMIT
    }

    pub fn get(&self, axis: usize) -> (r: i64)
        requires
            axis < 3,
        ensures
            r == self.coord(axis as int),
    {
        if axis == 0 {
            self.x
        } else if axis == 1 {
            self.y
        } else {
            self.z
        }
    }
}

#[derive(Clone, Copy, Debug, PartialEq, Eq, Structural)]
pub struct AxisAlignedBoundingBox {
    pub min: GridPoint,
    pub max: GridPoint,
}

impl AxisAlignedBoundingBox {
    pub open spec fn spec_null_box() -> AxisAlignedBoundingBox {
        AxisAlignedBoundingBox {
            min: GridPoint { x: i64::MAX, y: i64::MAX, z: i64::MAX },
            max: GridPoint { x: i64::MIN, y: i64::MIN, z: i64::MIN },
        }
    }

    /// Component-wise min of the `min` corners and max of the `max` corners.
    pub open spec fn spec_union_box(self, other: AxisAlignedBoundingBox) -> AxisAlignedBoundingBox {
        AxisAlignedBoundingBox {
            min: GridPoint {
                x: min_int(self.min.x as int, other.min.x as int) as i64,
                y: min_int(self.min.y as int, other.min.y as int) as i64,
                z: min_int(self.min.z as int, other.min.z as int) as i64,
            },
            max: GridPoint {
                x: max_int(self.max.x as int, other.max.x as int) as i64,
                y: max_int(self.max.y as int, other.max.y as int) as i64,
                z: max_int(self.max.z as int, other.max.z as int) as i64,
            },
        }
    }

    /// The box that holds exactly one point.
    pub open spec fn point_box(p: GridPoint) -> AxisAlignedBoundingBox {
        AxisAlignedBoundingBox { min: p, max: p }
    }

    pub open spec fn spec_union_point(self, p: GridPoint) -> AxisAlignedBoundingBox {
        self.spec_union_box(Self::point_box(p))
    }

    /// On some axis the box has `min > max`: it covers no space.
    pub open spec fn is_empty(self) -> bool {
        ||| self.min.x > self.max.x
        ||| self.min.y > self.max.y
        ||| self.min.z > self.max.z
    }

    /// The null box, or a box whose corners lie on the grid.
    pub open spec fn wf(self) -> bool {
        ||| self == Self::spec_null_box()
        ||| (self.min.in_grid() && self.max.in_grid())
    }

    /// A box that covers space and lies on the grid: the box of a primitive.
    pub open spec fn is_valid(self) -> bool {
        &&& self.min.in_grid()
        &&& self.max.in_grid()
        &&& !self.is_empty()
    }

    /// Every point of `other` lies in `self`.
    pub open spec fn encloses(self, other: AxisAlignedBoundingBox) -> bool {
        &&& self.min.x <= other.min.x && other.max.x <= self.max.x
        &&& self.min.y <= other.min.y && other.max.y <= self.max.y
        &&& self.min.z <= other.min.z && other.max.z <= self.max.z
    }

    pub open spec fn extent(self, axis: int) -> int {
        self.max.coord(axis) - self.min.coord(axis)
    }

    /// `2 (dx dy + dx dz + dy dz)` for a box that covers space, 0 for one
    /// that does not.
    pub open spec fn spec_surface_area(self) -> int {
        if self.is_empty() {
            0
        } else {
            let dx = self.extent(0);
            let dy = self.extent(1);
            let dz = self.extent(2);
            2 * (dx * dy + dx * dz + dy * dz)
        }
    }

    /// The sum of the two corners: twice the center, which stays on the grid.
    pub open spec fn spec_double_center(self) -> GridPoint {
        GridPoint {
            x: (self.min.x + self.max.x) as i64,
            y: (self.min.y + self.max.y) as i64,
            z: (self.min.z + self.max.z) as i64,
        }
    }

    pub fn is_valid_box(&self) -> (r: bool)
        ensures
            r == self.is_valid(),
    {
        self.min.is_in_grid() && self.max.is_in_grid() && self.min.x <= self.max.x && self.min.y
            <= self.max.y && self.min.z <= self.max.z
    }

    pub fn null_box() -> (r: AxisAlignedBoundingBox)
        ensures
            r == Self::spec_null_box(),
            r.wf(),
            r.is_empty(),
    {
        AxisAlignedBoundingBox {
            min: GridPoint { x: i64::MAX, y: i64::MAX, z: i64::MAX },
            max: GridPoint { x: i64::MIN, y: i64::MIN, z: i64::MIN },
        }
    }

    pub fn union_box(&self, other: AxisAlignedBoundingBox) -> (r: AxisAlignedBoundingBox)
        ensures
            r == self.spec_union_box(other),
    {
        AxisAlignedBoundingBox {
            min: GridPoint {
                x: min_i64(self.min.x, other.min.x),
                y: min_i64(self.min.y, other.min.y),
                z: min_i64(self.min.z, other.min.z),
            },
            max: GridPoint {
                x: max_i64(self.max.x, other.max.x),
                y: max_i64(self.max.y, other.max.y),
                z: max_i64(self.max.z, other.max.z),
            },
        }
    }

    pub fn union_point(&self, point: GridPoint) -> (r: AxisAlignedBoundingBox)
        ensures
            r == self.spec_union_point(point),
    {
        self.union_box(AxisAlignedBoundingBox { min: point, max: point })
    }

    pub fn surface_area(&self) -> (r: i128)
        requires
            self.wf(),
        ensures
            r == self.spec_surface_area(),
            0 <= r <= 24 * GRID_LIMIT * GRID_LIMIT,
    {
        if self.min.x > self.max.x || self.min.y > self.max.y || self.min.z > self.max.z {
            return 0;
        }
        let dx = self.max.x as i128 - self.min.x as i128;
        let dy = self.max.y as i128 - self.min.y as i128;
        let dz = self.max.z as i128 - self.min.z as i128;
        assert(0 <= dx <= 2 * GRID_LIMIT && 0 <= dy <= 2 * GRID_LIMIT && 0 <= dz <= 2 * GRID_LIMIT);
        assert(0 <= dx * dy <= 4 * GRID_LIMIT * GRID_LIMIT) by (nonlinear_arith)
            requires
                0 <= dx <= 2 * GRID_LIMIT,
                0 <= dy <= 2 * GRID_LIMIT,
        ;
        assert(0 <= dx * dz <= 4 * GRID_LIMIT * GRID_LIMIT) by (nonlinear_arith)
            requires
                0 <= dx <= 2 * GRID_LIMIT,
                0 <= dz <= 2 * GRID_LIMIT,
        ;
        assert(0 <= dy * dz <= 4 * GRID_LIMIT * GRID_LIMIT) by (nonlinear_arith)
            requires
                0 <= dy <= 2 * GRID_LIMIT,
                0 <= dz <= 2 * GRID_LIMIT,
        ;
        2 * (dx * dy + dx * dz + dy * dz)
    }

    /// Twice the center of a box on the grid.
    pub fn double_center(&self) -> (r: GridPoint)
        requires
            self.min.in_grid(),
            self.max.in_grid(),
        ensures
            r == self.spec_double_center(),
    {
        GridPoint {
            x: self.min.x + self.max.x,
            y: self.min.y + self.max.y,
            z: self.min.z + self.max.z,
        }
    }
}

/// The union of a sequence of boxes, folded from the left over the null box.
pub open spec fn boxes_union(s: Seq<AxisAlignedBoundingBox>) -> AxisAlignedBoundingBox
    decreases s.len(),
{
    if s.len() == 0 {
        AxisAlignedBoundingBox::spec_null_box()
    } else {
        boxes_union(s.drop_last()).spec_union_box(s.last())
    }
}

/// The smallest box that holds every point of `s`.
pub open spec fn points_union(s: Seq<GridPoint>) -> AxisAlignedBoundingBox
    decreases s.len(),
{
    if s.len() == 0 {
        AxisAlignedBoundingBox::spec_null_box()
    } else {
        points_union(s.drop_last()).spec_union_point(s.last())
    }
}

impl AxisAlignedBoundingBox {
    pub fn from_boxes(bounding_boxes: &Vec<AxisAlignedBoundingBox>) -> (r: AxisAlignedBoundingBox)
        ensures
            r == boxes_union(bounding_boxes@),
    {
        let mut acc = AxisAlignedBoundingBox::null_box();
        let mut i: usize = 0;
        while i < bounding_boxes.len()
            invariant
                i <= bounding_boxes@.len(),
                acc == boxes_union(bounding_boxes@.subrange(0, i as int)),
            decreases bounding_boxes@.len() - i,
        {
            assert(bounding_boxes@.subrange(0, i + 1).drop_last() =~= bounding_boxes@.subrange(
                0,
                i as int,
            ));
            acc = acc.union_box(bounding_boxes[i]);
            i = i + 1;
        }
        assert(bounding_boxes@.subrange(0, i as int) =~= bounding_boxes@);
        acc
    }

    pub fn from_points(points: &Vec<GridPoint>) -> (r: AxisAlignedBoundingBox)
        ensures
            r == points_union(points@),
    {
        let mut acc = AxisAlignedBoundingBox::null_box();
        let mut i: usize = 0;
        while i < points.len()
            invariant
                i <= points@.len(),
                acc == points_union(points@.subrange(0, i as int)),
            decreases points@.len() - i,
        {
            assert(points@.subrange(0, i + 1).drop_last() =~= points@.subrange(0, i as int));
            acc = acc.union_point(points[i]);
            i = i + 1;
        }
        assert(points@.subrange(0, i as int) =~= points@);
        acc
    }
}

/// The null box is an identity of `union_box`, on either side.
pub proof fn lemma_union_identity(b: AxisAlignedBoundingBox)
    ensures
        b.spec_union_box(AxisAlignedBoundingBox::spec_null_box()) == b,
        AxisAlignedBoundingBox::spec_null_box().spec_union_box(b) == b,
{
}

/// `union_box` does not depend on the order of its operands.
pub proof fn lemma_union_commutative(a: AxisAlignedBoundingBox, b: AxisAlignedBoundingBox)
    ensures
        a.spec_union_box(b) == b.spec_union_box(a),
{
}

/// `union_box` may be grouped either way.
pub proof fn lemma_union_associative(
    a: AxisAlignedBoundingBox,
    b: AxisAlignedBoundingBox,
    c: AxisAlignedBoundingBox,
)
    ensures
        a.spec_union_box(b).spec_union_box(c) == a.spec_union_box(b.spec_union_box(c)),
{
}

/// The union of two boxes encloses both, and stays on the grid.
pub proof fn lemma_union_encloses(a: AxisAlignedBoundingBox, b: AxisAlignedBoundingBox)
    ensures
        a.spec_union_box(b).encloses(a),
        a.spec_union_box(b).encloses(b),
        a.wf() && b.wf() ==> a.spec_union_box(b).wf(),
{
}

} // verus!
