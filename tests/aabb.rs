use raytrace_rust::aabb::{AxisAlignedBoundingBox, GridPoint};

fn boxed(min: (i64, i64, i64), max: (i64, i64, i64)) -> AxisAlignedBoundingBox {
    AxisAlignedBoundingBox {
        min: GridPoint::new(min.0, min.1, min.2),
        max: GridPoint::new(max.0, max.1, max.2),
    }
}

#[test]
fn union_with_null_box_is_identity() {
    let b = boxed((-3, 0, 2), (4, 5, 9));
    assert_eq!(b.union_box(AxisAlignedBoundingBox::null_box()), b);
    assert_eq!(AxisAlignedBoundingBox::null_box().union_box(b), b);
}

#[test]
fn union_is_commutative() {
    let a = boxed((-3, 0, 2), (4, 5, 9));
    let b = boxed((1, -7, 3), (2, 8, 12));
    assert_eq!(a.union_box(b), b.union_box(a));
    assert_eq!(a.union_box(b), boxed((-3, -7, 2), (4, 8, 12)));
}

#[test]
fn union_point_grows_box() {
    let b = boxed((0, 0, 0), (1, 1, 1)).union_point(GridPoint::new(-2, 3, 1));
    assert_eq!(b, boxed((-2, 0, 0), (1, 3, 1)));
}

#[test]
fn surface_area_of_box() {
    // 2 * (2*3 + 2*4 + 3*4) = 52
    assert_eq!(boxed((0, 0, 0), (2, 3, 4)).surface_area(), 52);
    assert_eq!(boxed((5, 5, 5), (5, 5, 5)).surface_area(), 0);
}

#[test]
fn surface_area_of_empty_boxes_is_zero() {
    assert_eq!(AxisAlignedBoundingBox::null_box().surface_area(), 0);
    assert_eq!(boxed((2, 0, 0), (1, 5, 5)).surface_area(), 0);
}

#[test]
fn from_points_and_boxes() {
    let pts = vec![GridPoint::new(1, 2, 3), GridPoint::new(-1, 5, 0), GridPoint::new(4, 4, 4)];
    assert_eq!(AxisAlignedBoundingBox::from_points(&pts), boxed((-1, 2, 0), (4, 5, 4)));
    let boxes = vec![boxed((0, 0, 0), (1, 1, 1)), boxed((-5, 2, 0), (0, 3, 7))];
    assert_eq!(AxisAlignedBoundingBox::from_boxes(&boxes), boxed((-5, 0, 0), (1, 3, 7)));
    assert_eq!(AxisAlignedBoundingBox::from_boxes(&vec![]), AxisAlignedBoundingBox::null_box());
}

#[test]
fn double_center_of_box() {
    assert_eq!(boxed((0, -2, 1), (3, 2, 2)).double_center(), GridPoint::new(3, 0, 3));
}
