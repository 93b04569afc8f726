use raytrace_rust::raster::pixel_order;

#[test]
fn rows_run_from_top_to_bottom() {
    assert_eq!(
        pixel_order(3, 2),
        vec![(0, 1), (1, 1), (2, 1), (0, 0), (1, 0), (2, 0)]
    );
}

#[test]
fn empty_image_has_no_pixels() {
    assert!(pixel_order(0, 5).is_empty());
    assert!(pixel_order(4, 0).is_empty());
}
