use shapefind::centroid::{average, centroid, part_points, Point};
use shapefind::classify::{classify, color_distance_at_least};
use shapefind::grid::{Image, Pixel};
use shapefind::holes::{close_small_regions, region_is_small};
use shapefind::scan::{close_hole, count_adjacent, for_all_of_kind_adjacent, get_scan_id, get_sorrunding_indecies};
use shapefind::{detect_shape, locate_shape, ShapeError};

const THRESHOLD: u32 = 35;

fn grid_bytes(w: usize, h: usize, white: &[(usize, usize)]) -> Vec<u8> {
    let mut v = vec![0u8; w * h * 3];
    for &(x, y) in white {
        let i = (y * w + x) * 3;
        v[i] = 255;
        v[i + 1] = 255;
        v[i + 2] = 255;
    }
    v
}

fn build(w: usize, h: usize, white: &[(usize, usize)]) -> Image {
    Image::from_rbg(w, h, &grid_bytes(w, h, white)).expect("byte count matches dimensions")
}

fn rect(x0: usize, y0: usize, x1: usize, y1: usize) -> Vec<(usize, usize)> {
    let mut v = Vec::new();
    for y in y0..=y1 {
        for x in x0..=x1 {
            v.push((x, y));
        }
    }
    v
}

fn count_part(img: &Image) -> usize {
    img.pixels().iter().filter(|p| p.is_part).count()
}

#[test]
fn test_get_idx() {
    assert_eq!(
        get_sorrunding_indecies(0, 0),
        [(1, 0), (0, 1), (1, 1)]
    );
    assert_eq!(
        get_sorrunding_indecies(1, 1),
        [
            (0, 0),
            (1, 0),
            (2, 0),
            (0, 1),
            (2, 1),
            (0, 2),
            (1, 2),
            (2, 2),
        ]
    );
}

#[test]
fn pixel_new_is_unscanned_background() {
    let p = Pixel::new(7, 8, 9);
    assert_eq!((p.red, p.green, p.blue), (7, 8, 9));
    assert!(!p.is_part);
    assert_eq!(p.scan_id, 0);
}

#[test]
fn from_rbg_rejects_wrong_byte_count() {
    assert!(Image::from_rbg(2, 2, &[0u8; 11]).is_none());
    assert!(Image::from_rbg(2, 2, &[0u8; 13]).is_none());
    assert!(Image::from_rbg(2, 2, &[0u8; 12]).is_some());
}

#[test]
fn grid_accessors_read_and_write() {
    let mut img = build(3, 2, &[(2, 1)]);
    assert_eq!(img.width(), 3);
    assert_eq!(img.height(), 2);
    assert_eq!(img.len(), 6);
    assert_eq!(img.at(2, 1).red, 255);
    assert_eq!(img.at(0, 0).red, 0);
    assert!(img.at_checked(3, 0).is_none());
    assert!(img.at_checked(0, 2).is_none());
    assert_eq!(img.at_checked(2, 1).unwrap().blue, 255);
    let cell = img.at_mut(0, 0);
    cell.is_part = true;
    assert!(img.at(0, 0).is_part);
    assert!(img.at_mut_checked(5, 5).is_none());
    if let Some(c) = img.at_mut_checked(1, 0) {
        c.scan_id = 42;
    }
    assert_eq!(img.at(1, 0).scan_id, 42);
    let coords = img.enumerate();
    assert_eq!(coords.len(), 6);
    assert_eq!(coords[0], (0, 0));
    assert_eq!(coords[5], (2, 1));
    let px = img.enumerate_pixels();
    assert_eq!(px.len(), 6);
    assert_eq!(px[5].0, 2);
    assert_eq!(px[5].1, 1);
    assert_eq!(px[5].2.green, 255);
}

#[test]
fn scan_id_counter_advances() {
    let mut counter: usize = 1;
    assert_eq!(get_scan_id(&mut counter), 1);
    assert_eq!(get_scan_id(&mut counter), 2);
    assert_eq!(counter, 3);
}

#[test]
fn color_metric_threshold() {
    // a color differs from itself by zero, below any positive threshold
    assert!(!color_distance_at_least(10, 20, 30, 10, 20, 30, 1));
    // black against white is far beyond the default threshold
    assert!(color_distance_at_least(0, 0, 0, 255, 255, 255, THRESHOLD));
    // near-black stays close to black
    assert!(!color_distance_at_least(0, 0, 0, 10, 10, 10, THRESHOLD));
}

#[test]
fn classify_empty_image_fails() {
    let mut img = Image::from_rbg(0, 0, &[]).unwrap();
    assert_eq!(classify(&mut img, THRESHOLD), Err(ShapeError::EmptyImage));
}

#[test]
fn classify_marks_distant_colors_as_part() {
    let mut img = build(4, 3, &[(1, 1), (2, 2)]);
    classify(&mut img, THRESHOLD).unwrap();
    assert!(img.at(1, 1).is_part);
    assert!(img.at(2, 2).is_part);
    assert!(!img.at(0, 0).is_part);
    assert!(!img.at(3, 2).is_part);
    assert_eq!(count_part(&img), 2);
}

#[test]
fn uniform_grid_classifies_all_background_and_no_centroid() {
    let mut img = build(6, 6, &[]);
    classify(&mut img, THRESHOLD).unwrap();
    assert_eq!(count_part(&img), 0);
    assert_eq!(centroid(&img), None);
}

#[test]
fn rectangle_centroid_is_its_middle() {
    let mut img = build(10, 10, &rect(2, 2, 7, 7));
    classify(&mut img, THRESHOLD).unwrap();
    assert_eq!(count_part(&img), 36);
    assert_eq!(centroid(&img), Some(Point(4, 4)));
}

#[test]
fn scan_is_idempotent_per_generation() {
    let mut img = build(5, 5, &rect(1, 1, 2, 2));
    classify(&mut img, THRESHOLD).unwrap();
    let first = count_adjacent(&mut img, 1, 1, 7);
    assert_eq!(first, 4);
    let second = count_adjacent(&mut img, 1, 1, 7);
    assert_eq!(second, 0);
}

#[test]
fn scan_counts_the_seed_region_only() {
    // two separate part regions: the scan sized from one never counts the other
    let mut img = build(8, 8, &[(1, 1), (1, 2), (6, 6)]);
    classify(&mut img, THRESHOLD).unwrap();
    assert_eq!(count_adjacent(&mut img, 1, 1, 3), 2);
    assert_eq!(count_adjacent(&mut img, 6, 6, 4), 1);
}

#[test]
fn diagonal_bridge_merges_regions() {
    // two 2-by-2 blocks touching only at one diagonal corner form one region
    let mut blocks = rect(1, 1, 2, 2);
    blocks.extend(rect(3, 3, 4, 4));
    let mut img = build(8, 8, &blocks);
    classify(&mut img, THRESHOLD).unwrap();
    assert_eq!(count_adjacent(&mut img, 1, 1, 9), 8);
}

#[test]
fn close_hole_flips_the_seed_region() {
    let mut img = build(6, 6, &[(2, 2), (3, 2)]);
    classify(&mut img, THRESHOLD).unwrap();
    assert_eq!(count_part(&img), 2);
    let flipped = close_hole(&mut img, 2, 2, 11);
    assert_eq!(flipped, 2);
    assert_eq!(count_part(&img), 0);
}

#[test]
fn visitor_writes_the_requested_class() {
    let mut img = build(4, 4, &[]);
    classify(&mut img, THRESHOLD).unwrap();
    let stamped = for_all_of_kind_adjacent(&mut img, 0, 0, Some(true), 21);
    assert_eq!(stamped, 16);
    assert_eq!(count_part(&img), 16);
    for p in img.pixels() {
        assert_eq!(p.scan_id, 21);
    }
}

#[test]
fn threshold_boundary_is_strict() {
    // fraction 2/100 of a 100-pixel image: the boundary region size is 2
    assert!(!region_is_small(2, 2, 100, 100));
    assert!(region_is_small(1, 2, 100, 100));
    // a region of exactly the boundary size survives the pass
    let mut img = build(10, 10, &[(5, 5), (5, 6)]);
    classify(&mut img, THRESHOLD).unwrap();
    close_small_regions(&mut img, 2, 100);
    assert!(img.at(5, 5).is_part);
    assert!(img.at(5, 6).is_part);
    assert_eq!(count_part(&img), 2);
}

#[test]
fn lone_pixel_is_erased_and_nothing_is_found() {
    let mut img = build(10, 10, &[(5, 5)]);
    assert_eq!(
        locate_shape(&mut img, THRESHOLD, 2, 100),
        Err(ShapeError::NoShapeDetected)
    );
    assert_eq!(count_part(&img), 0);
}

#[test]
fn interior_hole_is_filled_and_centroid_centers() {
    let mut white = rect(2, 2, 7, 7);
    white.retain(|&c| c != (4, 4));
    let mut img = build(10, 10, &white);
    let r = locate_shape(&mut img, THRESHOLD, 2, 100);
    assert!(img.at(4, 4).is_part, "the hole is flipped to part");
    assert_eq!(count_part(&img), 36);
    assert_eq!(r, Ok(Point(4, 4)));
}

#[test]
fn hole_closing_preserves_colors_dimensions_and_totals() {
    let mut white = rect(2, 2, 7, 7);
    white.retain(|&c| c != (4, 4));
    white.push((9, 9));
    let mut img = build(10, 10, &white);
    classify(&mut img, THRESHOLD).unwrap();
    let before = img.pixels();
    close_small_regions(&mut img, 2, 100);
    let after = img.pixels();
    assert_eq!(img.width(), 10);
    assert_eq!(img.height(), 10);
    assert_eq!(before.len(), after.len());
    for (b, a) in before.iter().zip(after.iter()) {
        assert_eq!((b.red, b.green, b.blue), (a.red, a.green, a.blue));
        assert_ne!(a.scan_id, 0, "every pixel was claimed by a scan");
    }
    let parts = count_part(&img);
    let background = after.len() - parts;
    assert_eq!(parts + background, 100);
}

#[test]
fn empty_image_is_reported() {
    let mut img = Image::from_rbg(0, 0, &[]).unwrap();
    assert_eq!(
        locate_shape(&mut img, THRESHOLD, 1, 100),
        Err(ShapeError::EmptyImage)
    );
    assert_eq!(detect_shape(&mut img, THRESHOLD, 1, 100), Err(ShapeError::EmptyImage));
}

#[test]
fn average_of_points() {
    assert_eq!(average(&[]), None);
    assert_eq!(
        average(&[Point(1, 2), Point(2, 3), Point(3, 4)]),
        Some(Point(2, 3))
    );
    // rounds down
    assert_eq!(average(&[Point(0, 0), Point(1, 1)]), Some(Point(0, 0)));
    assert_eq!(average(&[Point(5, 7)]), Some(Point(5, 7)));
}

#[test]
fn average_is_order_independent() {
    let a = average(&[Point(1, 5), Point(3, 1), Point(2, 3)]);
    let b = average(&[Point(2, 3), Point(1, 5), Point(3, 1)]);
    assert_eq!(a, b);
    assert_eq!(a, Some(Point(2, 3)));
}

#[test]
fn part_points_lists_row_major_coordinates() {
    let mut img = build(4, 4, &[(3, 0), (0, 1)]);
    classify(&mut img, THRESHOLD).unwrap();
    let pts = part_points(&img);
    assert_eq!(pts, vec![Point(3, 0), Point(0, 1)]);
}

#[test]
fn detect_shape_then_centroid_matches_locate_shape() {
    let white = rect(1, 1, 3, 3);
    let mut a = build(8, 8, &white);
    let mut b = build(8, 8, &white);
    detect_shape(&mut a, THRESHOLD, 1, 100).unwrap();
    let c1 = centroid(&a);
    let c2 = locate_shape(&mut b, THRESHOLD, 1, 100).ok();
    assert_eq!(c1, c2);
    assert_eq!(c1, Some(Point(2, 2)));
}
