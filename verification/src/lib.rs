//! Locating a visually distinct shape in a raster image.
//!
//! The library classifies every pixel of a raster as `part` (foreground) or
//! `background` by comparing its color against a reference color with a
//! perceptual color-distance metric, groups pixels of one class into
//! 8-connected regions by an iterative flood fill, reclassifies regions
//! whose size falls below a configurable fraction of the image area
//! ("hole closing"), and reports the integer centroid of the remaining
//! foreground pixels.

pub mod centroid;
pub mod classify;
pub mod grid;
pub mod holes;
pub mod scan;

use vstd::prelude::*;

verus! {

/// The recoverable failure conditions of the shape-detection pipeline.
///
/// Out-of-range grid access is not represented here: every verified
/// accessor requires its coordinates to be in bounds, so the condition
/// cannot arise in verified callers.
#[derive(Clone, Copy, PartialEq, Eq, Structural, Debug)]
pub enum ShapeError {
    /// The grid holds no pixels, so no reference color can be sampled.
    EmptyImage,
    /// No pixel is classified as part of the shape, so there is no centroid.
    NoShapeDetected,
}

/// The final cell store of the whole pipeline, as a function of the input
/// grid alone: every class rewritten by the color metric against the color
/// of cell `0`, then the row-major hole-closing pass over the classified
/// grid.
pub open spec fn pipeline_cells(
    pre: Seq<grid::Pixel>,
    w: int,
    h: int,
    threshold: u32,
    num: int,
    den: int,
) -> Seq<grid::Pixel> {
    holes::pass_result(classify::classified_cells(pre, threshold), w, h, num, den, 0, 1)
}

/// The full segmentation pipeline on a freshly built grid: classify every
/// pixel against the color of pixel `(0, 0)` with the given perceptual
/// `threshold`, then close every region whose share of the image area stays
/// strictly below `num / den`. The resulting cell store is exactly
/// `pipeline_cells` of the input: dimensions and colors never change, and
/// after a successful run every pixel has been claimed by a region scan.
/// Fails with `EmptyImage`, leaving the grid unchanged, exactly when the
/// grid has no pixels.
pub fn detect_shape(img: &mut grid::Image, threshold: u32, num: u64, den: u64) -> (r: Result<
    (),
    ShapeError,
>)
    requires
        old(img).wf(),
        old(img).area() <= u64::MAX,
        2 * old(img).area() + 1 < usize::MAX,
        forall|i: int| 0 <= i < old(img).cells().len() ==> (#[trigger] old(img).cells()[i]).scan_id
            == 0,
    ensures
        final (img).wf(),
        final (img).spec_width() == old(img).spec_width(),
        final (img).spec_height() == old(img).spec_height(),
        final (img).cells().len() == old(img).cells().len(),
        forall|i: int|
            0 <= i < final (img).cells().len() ==> grid::same_rgb(
                #[trigger] final (img).cells()[i],
                old(img).cells()[i],
            ),
        match r {
            Ok(()) => {
                &&& old(img).area() > 0
                &&& final (img).cells() == pipeline_cells(
                    old(img).cells(),
                    old(img).spec_width() as int,
                    old(img).spec_height() as int,
                    threshold,
                    num as int,
                    den as int,
                )
                &&& forall|i: int|
                    0 <= i < final (img).cells().len() ==> (#[trigger] final (img).cells()[i]).scan_id != 0
            },
            Err(e) => {
                &&& e == ShapeError::EmptyImage
                &&& old(img).area() == 0
                &&& final (img).cells() == old(img).cells()
            },
        },
{
    let ghost g0 = *img;
    let r = classify::classify(img, threshold);
    match r {
        Err(e) => Err(e),
        Ok(()) => {
            proof {
                assert forall|i: int| 0 <= i < img.cells().len() implies (#[trigger] img.cells()[i]).scan_id
                    == 0 && grid::same_rgb(img.cells()[i], g0.cells()[i]) by {
                    assert(classify::cell_classified(g0.cells(), img.cells(), i, threshold));
                }
            }
            holes::close_small_regions(img, num, den);
            Ok(())
        },
    }
}

/// Runs the full pipeline and reports the centroid of the detected shape:
/// the floor of the mean coordinate of all pixels left classified `part`.
/// The grid ends as `pipeline_cells` of its input, so success is owed
/// exactly when that cell store holds a `part` pixel. Fails with
/// `EmptyImage` on a zero-pixel grid and with `NoShapeDetected` when, after
/// classification and hole closing, no pixel is `part`.
pub fn locate_shape(img: &mut grid::Image, threshold: u32, num: u64, den: u64) -> (r: Result<
    centroid::Point<usize>,
    ShapeError,
>)
    requires
        old(img).wf(),
        old(img).area() <= u64::MAX,
        2 * old(img).area() + 1 < usize::MAX,
        forall|i: int| 0 <= i < old(img).cells().len() ==> (#[trigger] old(img).cells()[i]).scan_id
            == 0,
    ensures
        final (img).wf(),
        final (img).spec_width() == old(img).spec_width(),
        final (img).spec_height() == old(img).spec_height(),
        old(img).area() > 0 ==> final (img).cells() == pipeline_cells(
            old(img).cells(),
            old(img).spec_width() as int,
            old(img).spec_height() as int,
            threshold,
            num as int,
            den as int,
        ),
        match r {
            Ok(p) => {
                &&& old(img).area() > 0
                &&& centroid::part_count(final (img).cells()) > 0
                &&& p.0 == centroid::part_sum_x_upto(
                    final (img).cells(),
                    final (img).spec_width() as int,
                    final (img).cells().len() as int,
                ) / centroid::part_count(final (img).cells())
                &&& p.1 == centroid::part_sum_y_upto(
                    final (img).cells(),
                    final (img).spec_width() as int,
                    final (img).cells().len() as int,
                ) / centroid::part_count(final (img).cells())
            },
            Err(ShapeError::EmptyImage) => old(img).area() == 0 && final (img).cells() == old(img).cells(),
            Err(ShapeError::NoShapeDetected) => old(img).area() > 0 && centroid::part_count(
                final (img).cells(),
            ) == 0,
        },
{
    match detect_shape(img, threshold, num, den) {
        Err(e) => Err(e),
        Ok(()) => {
            match centroid::centroid(img) {
                Some(p) => Ok(p),
                None => Err(ShapeError::NoShapeDetected),
            }
        },
    }
}

/// On a grid whose every pixel carries the reference color, the whole
/// pipeline leaves every pixel background, so the centroid of the result
/// does not exist: classification marks nothing `part`, and the single
/// region covering the whole grid is never small under a fraction of at
/// most one, so hole closing flips nothing. (Under a fraction above one
/// every region is small and the all-background grid would be flipped
/// whole, so such fractions are left out.)
pub proof fn lemma_uniform_grid_pipeline(
    pre: Seq<grid::Pixel>,
    w: int,
    h: int,
    threshold: u32,
    num: int,
    den: int,
)
    requires
        w >= 1,
        h >= 1,
        pre.len() == w * h,
        threshold >= 1,
        0 <= num <= den,
        forall|i: int| 0 <= i < pre.len() ==> grid::same_rgb(#[trigger] pre[i], pre[0]),
        forall|i: int| 0 <= i < pre.len() ==> (#[trigger] pre[i]).scan_id == 0,
        forall|i: int|
            0 <= i < pre.len() ==> #[trigger] classify::cell_classified(
                pre,
                classify::classified_cells(pre, threshold),
                i,
                threshold,
            ),
    ensures
        forall|i: int|
            0 <= i < pre.len() ==> !(#[trigger] pipeline_cells(
                pre,
                w,
                h,
                threshold,
                num,
                den,
            )[i]).is_part,
        centroid::part_count(pipeline_cells(pre, w, h, threshold, num, den)) == 0,
{
    assert(w * h >= 1) by (nonlinear_arith)
        requires
            w >= 1,
            h >= 1,
    ;
    let mid = classify::classified_cells(pre, threshold);
    classify::lemma_uniform_grid_all_background(pre, mid, threshold);
    // the classified grid is open everywhere for the first scan
    assert forall|a: int, b: int|
        0 <= a < w && 0 <= b < h implies #[trigger] scan::fill_open(
        mid,
        w,
        h,
        false,
        1usize,
        a,
        b,
    ) by {
        grid::lemma_flat_index_bounds(w, h, a, b);
        assert(classify::cell_classified(pre, mid, b * w + a, threshold));
    }
    // so the first measuring scan covers the whole grid
    let reg = scan::region_idx(mid, w, h, false, 1usize, 0, 0);
    assert forall|i: int| 0 <= i < w * h implies #[trigger] reg.contains(i) by {
        grid::lemma_flat_index_decompose(w, h, i);
        let x = i % w;
        let y = i / w;
        scan::lemma_full_grid_reachable(mid, w, h, false, 1usize, x, y);
    }
    assert forall|i: int| #[trigger] reg.contains(i) implies 0 <= i < w * h by {
        let (x, y) = choose|x: int, y: int|
            0 <= x < w && 0 <= y < h && i == y * w + x && #[trigger] scan::fill_reachable(
                mid,
                w,
                h,
                false,
                1usize,
                0,
                0,
                x,
                y,
            );
        grid::lemma_flat_index_bounds(w, h, x, y);
    }
    assert(reg =~= vstd::set_lib::set_int_range(0, w * h));
    vstd::set_lib::lemma_int_range(0, w * h);
    assert(reg.len() == w * h);
    // the whole grid is never a small share of itself under num <= den
    vstd::arithmetic::mul::lemma_mul_inequality(num, den, w * h);
    assert(num * (w * h) <= den * (w * h));
    assert((w * h) * den == den * (w * h)) by (nonlinear_arith);
    assert(!holes::spec_region_is_small(w * h, num, den, w * h));
    // one model step stamps everything and flips nothing
    vstd::arithmetic::div_mod::lemma_fundamental_div_mod_converse(0, w, 0, 0);
    let stamped = holes::stamp_region(mid, reg, 1usize);
    assert(mid[0].scan_id == 0) by {
        assert(classify::cell_classified(pre, mid, 0, threshold));
    }
    assert(mid[0].is_part == false);
    assert(pipeline_cells(pre, w, h, threshold, num, den) == holes::pass_result(
        stamped,
        w,
        h,
        num,
        den,
        1,
        2usize,
    ));
    // every later cell already carries the tag, so the pass stops changing
    assert forall|i: int| 1 <= i < stamped.len() implies (#[trigger] stamped[i]).scan_id
        != 0 by {
        assert(reg.contains(i));
    }
    holes::lemma_pass_skips_tagged(stamped, w, h, num, den, 1, 2usize);
    assert(pipeline_cells(pre, w, h, threshold, num, den) == stamped);
    // stamping kept every class, so everything stays background
    assert forall|i: int|
        0 <= i < pre.len() implies !(#[trigger] pipeline_cells(
        pre,
        w,
        h,
        threshold,
        num,
        den,
    )[i]).is_part by {
        assert(stamped[i].is_part == mid[i].is_part);
    }
    centroid::lemma_all_background_zero_count(
        pipeline_cells(pre, w, h, threshold, num, den),
        pre.len() as int,
    );
}

} // verus!
