use raytrace_rust::aabb::{AxisAlignedBoundingBox, GridPoint};
use raytrace_rust::split::{
    split_equal, split_middle, split_surface_area, Equal, Middle, Primitive, Split, SurfaceArea,
};

fn prim(index: usize, min: (i64, i64, i64), max: (i64, i64, i64)) -> Primitive {
    Primitive {
        bounds: AxisAlignedBoundingBox {
            min: GridPoint::new(min.0, min.1, min.2),
            max: GridPoint::new(max.0, max.1, max.2),
        },
        index,
    }
}

fn cube_at_x(index: usize, x: i64) -> Primitive {
    prim(index, (x, 0, 0), (x + 1, 1, 1))
}

fn sorted_indices(prims: &[Primitive]) -> Vec<usize> {
    let mut v: Vec<usize> = prims.iter().map(|p| p.index).collect();
    v.sort();
    v
}

#[test]
fn equal_leaves_short_runs_whole() {
    let mut prims = vec![cube_at_x(0, 5), cube_at_x(1, 0)];
    let before = prims.clone();
    assert_eq!(split_equal(&mut prims, 0, 2), None);
    assert_eq!(prims, before);
}

#[test]
fn equal_cuts_at_the_median() {
    let mut prims: Vec<Primitive> = (0..5).map(|i| cube_at_x(i, 40 - 10 * i as i64)).collect();
    assert_eq!(split_equal(&mut prims, 0, 5), Some(2));
    let mut left: Vec<usize> = prims[..2].iter().map(|p| p.index).collect();
    left.sort();
    assert_eq!(left, vec![3, 4]);
    assert_eq!(sorted_indices(&prims), vec![0, 1, 2, 3, 4]);
}

#[test]
fn equal_works_on_a_sub_run() {
    let mut prims: Vec<Primitive> = (0..7).map(|i| cube_at_x(i, 60 - 10 * i as i64)).collect();
    assert_eq!(Equal.split(&mut prims, 2, 6), Some(4));
    assert_eq!(prims[0].index, 0);
    assert_eq!(prims[1].index, 1);
    assert_eq!(prims[6].index, 6);
    let mut left: Vec<usize> = prims[2..4].iter().map(|p| p.index).collect();
    left.sort();
    assert_eq!(left, vec![4, 5]);
}

#[test]
fn middle_cuts_at_the_spatial_midpoint() {
    let mut prims = vec![cube_at_x(0, 10), cube_at_x(1, 0), cube_at_x(2, 2), cube_at_x(3, 1)];
    assert_eq!(split_middle(&mut prims, 0, 4), Some(3));
    let mut left: Vec<usize> = prims[..3].iter().map(|p| p.index).collect();
    left.sort();
    assert_eq!(left, vec![1, 2, 3]);
    assert_eq!(prims[3].index, 0);
}

#[test]
fn middle_keeps_coincident_centroids_whole() {
    let mut prims: Vec<Primitive> = (0..3).map(|i| cube_at_x(i, 4)).collect();
    let before = prims.clone();
    assert_eq!(Middle.split(&mut prims, 0, 3), None);
    assert_eq!(prims, before);
}

#[test]
fn middle_leaves_short_runs_whole() {
    let mut prims = vec![cube_at_x(0, 9), cube_at_x(1, 0)];
    let before = prims.clone();
    assert_eq!(split_middle(&mut prims, 0, 2), None);
    assert_eq!(prims, before);
}

#[test]
fn surface_area_small_runs_go_to_median() {
    let mut prims: Vec<Primitive> = (0..4).map(|i| cube_at_x(i, 30 - 10 * i as i64)).collect();
    assert_eq!(split_surface_area(&mut prims, 0, 4), Some(2));
    let mut left: Vec<usize> = prims[..2].iter().map(|p| p.index).collect();
    left.sort();
    assert_eq!(left, vec![2, 3]);
}

#[test]
fn surface_area_separates_clusters() {
    let mut prims = vec![
        cube_at_x(0, 1000),
        cube_at_x(1, 0),
        cube_at_x(2, 1001),
        cube_at_x(3, 1),
        cube_at_x(4, 1002),
        cube_at_x(5, 2),
    ];
    assert_eq!(SurfaceArea.split(&mut prims, 0, 6), Some(3));
    let mut left: Vec<usize> = prims[..3].iter().map(|p| p.index).collect();
    left.sort();
    assert_eq!(left, vec![1, 3, 5]);
    assert_eq!(sorted_indices(&prims), vec![0, 1, 2, 3, 4, 5]);
}

#[test]
fn surface_area_keeps_a_leaf_when_cutting_does_not_pay() {
    let mut prims: Vec<Primitive> = (0..5).map(|i| prim(i, (0, 0, 0), (10, 10, 10))).collect();
    let before = prims.clone();
    assert_eq!(split_surface_area(&mut prims, 0, 5), None);
    assert_eq!(prims, before);
}

#[test]
fn every_split_keeps_the_run_complete() {
    let base: Vec<Primitive> = (0..9)
        .map(|i| {
            let x = (i as i64 * 37) % 23;
            let y = (i as i64 * 11) % 7;
            prim(i, (x, y, 0), (x + 2, y + 3, 1))
        })
        .collect();
    let methods: [&dyn Fn(&mut Vec<Primitive>) -> Option<usize>; 3] = [
        &|p| split_equal(p, 0, 9),
        &|p| split_middle(p, 0, 9),
        &|p| split_surface_area(p, 0, 9),
    ];
    for m in methods.iter() {
        let mut prims = base.clone();
        let k = m(&mut prims).unwrap_or(9);
        assert!(k <= 9);
        let mut all: Vec<usize> = prims[..k].iter().chain(prims[k..].iter()).map(|p| p.index).collect();
        all.sort();
        assert_eq!(all, (0..9).collect::<Vec<usize>>());
    }
}

#[test]
fn primitives_need_a_box_on_the_grid() {
    let ok = AxisAlignedBoundingBox { min: GridPoint::new(0, 0, 0), max: GridPoint::new(1, 2, 3) };
    assert_eq!(Primitive::try_new(ok, 7), Some(Primitive { bounds: ok, index: 7 }));
    assert_eq!(Primitive::try_new(AxisAlignedBoundingBox::null_box(), 0), None);
    let flipped = AxisAlignedBoundingBox { min: GridPoint::new(0, 3, 0), max: GridPoint::new(1, 2, 3) };
    assert_eq!(Primitive::try_new(flipped, 1), None);
    let far = AxisAlignedBoundingBox { min: GridPoint::new(0, 0, 0), max: GridPoint::new(1 << 50, 2, 3) };
    assert_eq!(Primitive::try_new(far, 2), None);
}
