use raytrace_rust::aabb::{AxisAlignedBoundingBox, GridPoint};
use raytrace_rust::bvh::{Bvh, BvhContents};
use raytrace_rust::split::{Equal, Middle, Primitive, Split, SurfaceArea};

const OFFSET: i64 = 1 << 20;

fn scene(n: usize) -> Vec<Primitive> {
    let mut state: u64 = 12345;
    let mut next = move |m: i64| {
        state = state.wrapping_mul(6364136223846793005).wrapping_add(1442695040888963407);
        ((state >> 33) as i64).rem_euclid(m)
    };
    (0..n)
        .map(|i| {
            let x = next(500);
            let y = next(40);
            let z = next(40);
            let s = 1 + next(12);
            Primitive {
                bounds: AxisAlignedBoundingBox {
                    min: GridPoint::new(x, y, z),
                    max: GridPoint::new(x + s, y + s, z + s),
                },
                index: i,
            }
        })
        .collect()
}

/// A ray along +x through (y, z): it meets a box where the box spans (y, z),
/// at the distance of the box's near face.
fn prim_hit(p: &Primitive, y: i64, z: i64, lo: u64, hi: u64) -> Option<u64> {
    let b = p.bounds;
    if b.min.y <= y && y <= b.max.y && b.min.z <= z && z <= b.max.z {
        let t = (b.min.x + OFFSET) as u64;
        if lo <= t && t < hi {
            return Some(t);
        }
    }
    None
}

fn box_hit(b: AxisAlignedBoundingBox, y: i64, z: i64, lo: u64, hi: u64) -> bool {
    b.min.y <= y
        && y <= b.max.y
        && b.min.z <= z
        && z <= b.max.z
        && (b.max.x + OFFSET) as u64 >= lo
        && ((b.min.x + OFFSET) as u64) < hi
}

fn check_tree(t: &Bvh, prims: &[Primitive]) {
    assert!(t.start < t.end);
    let b = AxisAlignedBoundingBox::from_boxes(&prims[t.start..t.end].iter().map(|p| p.bounds).collect());
    assert_eq!(t.bounding_box(), b);
    if let BvhContents::Node { left, right } = &t.contents {
        assert_eq!(left.start, t.start);
        assert_eq!(left.end, right.start);
        assert_eq!(right.end, t.end);
        check_tree(left, prims);
        check_tree(right, prims);
    }
}

fn check_method<T: Split>(method: &T) {
    let mut prims = scene(60);
    let bvh = Bvh::build(&mut prims, method);
    assert_eq!(bvh.start, 0);
    assert_eq!(bvh.end, 60);
    let mut idx: Vec<usize> = prims.iter().map(|p| p.index).collect();
    idx.sort();
    assert_eq!(idx, (0..60).collect::<Vec<usize>>());
    check_tree(&bvh, &prims);
    let mut hits = 0;
    for y in 0..45 {
        for z in (0..45).step_by(3) {
            for (lo, hi) in [(0u64, u64::MAX), ((OFFSET + 100) as u64, (OFFSET + 300) as u64)] {
                let found = bvh.hit(
                    &|b: AxisAlignedBoundingBox, l: u64, h: u64| box_hit(b, y, z, l, h),
                    &|i: usize, l: u64, h: u64| prim_hit(&prims[i], y, z, l, h),
                    lo,
                    hi,
                );
                let scan = prims.iter().filter_map(|p| prim_hit(p, y, z, lo, hi)).min();
                assert_eq!(found.map(|f| f.1), scan);
                if let Some((i, t)) = found {
                    assert_eq!(prim_hit(&prims[i], y, z, lo, hi), Some(t));
                    hits += 1;
                }
            }
        }
    }
    assert!(hits > 0);
}

#[test]
fn hierarchy_matches_scan_with_equal() {
    check_method(&Equal);
}

#[test]
fn hierarchy_matches_scan_with_middle() {
    check_method(&Middle);
}

#[test]
fn hierarchy_matches_scan_with_surface_area() {
    check_method(&SurfaceArea);
}

#[test]
fn single_primitive_is_a_leaf() {
    let mut prims = scene(1);
    let bvh = Bvh::build(&mut prims, &SurfaceArea);
    assert!(matches!(bvh.contents, BvhContents::Leaf));
    assert_eq!(bvh.bounds, prims[0].bounds);
}

#[test]
fn missed_box_returns_nothing() {
    let mut prims = scene(10);
    let bvh = Bvh::build(&mut prims, &Equal);
    let found = bvh.hit(&|_b: AxisAlignedBoundingBox, _l: u64, _h: u64| false, &|_i: usize, l: u64, _h: u64| Some(l), 0, 10);
    assert_eq!(found, None);
}

#[test]
fn scan_keeps_the_first_nearest_hit() {
    let dist = [5u64, 3, 7, 3];
    let test = |i: usize, lo: u64, hi: u64| {
        let t = dist[i];
        if lo <= t && t < hi {
            Some(t)
        } else {
            None
        }
    };
    assert_eq!(raytrace_rust::bvh::scan_run(&test, 0, 4, 0, 100), Some((1, 3)));
    assert_eq!(raytrace_rust::bvh::scan_run(&test, 2, 4, 0, 100), Some((3, 3)));
    assert_eq!(raytrace_rust::bvh::scan_run(&test, 0, 4, 4, 7), Some((0, 5)));
    assert_eq!(raytrace_rust::bvh::scan_run(&test, 0, 4, 8, 100), None);
    assert_eq!(raytrace_rust::bvh::scan_run(&test, 3, 3, 0, 100), None);
}

#[test]
fn two_primitives_stay_one_unchanged_leaf() {
    let mut prims = scene(2);
    prims.reverse();
    let before = prims.clone();
    let bvh = Bvh::build(&mut prims, &Equal);
    assert!(matches!(bvh.contents, BvhContents::Leaf));
    assert_eq!(prims, before);
    assert_eq!((bvh.start, bvh.end), (0, 2));
}

#[test]
fn coincident_centroids_make_one_leaf() {
    let mut prims: Vec<Primitive> = (0..6)
        .map(|i| Primitive {
            bounds: AxisAlignedBoundingBox { min: GridPoint::new(0, 0, 0), max: GridPoint::new(4, 4, 4) },
            index: i,
        })
        .collect();
    let before = prims.clone();
    let bvh = Bvh::build(&mut prims, &Middle);
    assert!(matches!(bvh.contents, BvhContents::Leaf));
    assert_eq!(prims, before);
    let bvh = Bvh::build(&mut prims, &SurfaceArea);
    assert!(matches!(bvh.contents, BvhContents::Leaf));
}
