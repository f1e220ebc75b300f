//! The color classifier: every pixel is marked `part` or `background` by
//! comparing its color against a reference color (the top-left pixel, taken
//! to be background) with a perceptual color-distance metric.

use vstd::prelude::*;
use crate::grid::{same_rgb, Image, Pixel};
use crate::ShapeError;

verus! {

/// The perceptual color difference between the two colors, in whole
/// CIEDE2000 units (rounded down).
pub uninterp spec fn distance_units(r1: u8, g1: u8, b1: u8, r2: u8, g2: u8, b2: u8) -> u32;

/// Relies on `delta_e::DE2000::from_rgb`: the CIEDE2000 color difference,
/// a non-negative value computed from the two colors alone; on identical
/// inputs every delta term of the formula vanishes, so the difference of a
/// color to itself is exactly zero. Rounding the non-negative difference
/// down to a whole number keeps every comparison against a whole-number
/// threshold exact.
#[verifier::external_body]
fn color_distance_units(r1: u8, g1: u8, b1: u8, r2: u8, g2: u8, b2: u8) -> (r: u32)
    ensures
        r == distance_units(r1, g1, b1, r2, g2, b2),
        (r1 == r2 && g1 == g2 && b1 == b2) ==> r == 0,
{
    delta_e::DE2000::from_rgb(&[r1, g1, b1], &[r2, g2, b2]) as u32
}

/// Whether the perceptual color difference between the two colors reaches
/// the threshold `t`, a whole number of CIEDE2000 units.
pub open spec fn distance_at_least(
    r1: u8,
    g1: u8,
    b1: u8,
    r2: u8,
    g2: u8,
    b2: u8,
    t: u32,
) -> bool {
    distance_units(r1, g1, b1, r2, g2, b2) >= t
}

/// The classifier's per-pixel test: does the color `(r2, g2, b2)` stand at
/// least `t` perceptual units away from the color `(r1, g1, b1)`?
pub fn color_distance_at_least(r1: u8, g1: u8, b1: u8, r2: u8, g2: u8, b2: u8, t: u32) -> (r:
    bool)
    ensures
        r == distance_at_least(r1, g1, b1, r2, g2, b2, t),
        (r1 == r2 && g1 == g2 && b1 == b2 && t >= 1) ==> !r,
{
    color_distance_units(r1, g1, b1, r2, g2, b2) >= t
}

/// The classification a pixel of color `(r2, g2, b2)` receives against the
/// reference color `(r1, g1, b1)` and threshold `t`.
pub open spec fn classified_part(r1: u8, g1: u8, b1: u8, r2: u8, g2: u8, b2: u8, t: u32) -> bool {
    distance_at_least(r1, g1, b1, r2, g2, b2, t)
}

/// How classification rewrites cell `i`: the color and the scan tag are kept,
/// and the class is the verdict of the distance metric against the reference
/// color (the color of cell `0` before the pass). A cell that carries the
/// reference color itself is never marked `part` under a positive threshold.
pub open spec fn cell_classified(pre: Seq<Pixel>, post: Seq<Pixel>, i: int, t: u32) -> bool {
    let rf = pre[0];
    let o = pre[i];
    let n = post[i];
    &&& same_rgb(n, o)
    &&& n.scan_id == o.scan_id
    &&& n.is_part == classified_part(rf.red, rf.green, rf.blue, o.red, o.green, o.blue, t)
    &&& ((t >= 1 && same_rgb(o, rf)) ==> !n.is_part)
}

/// The grid as the classifier leaves it: every class rewritten to the
/// metric's verdict against the reference color (the color of cell `0`),
/// colors and scan tags kept.
pub open spec fn classified_cells(pre: Seq<Pixel>, t: u32) -> Seq<Pixel> {
    Seq::new(
        pre.len(),
        |i: int|
            Pixel {
                is_part: classified_part(
                    pre[0].red,
                    pre[0].green,
                    pre[0].blue,
                    pre[i].red,
                    pre[i].green,
                    pre[i].blue,
                    t,
                ),
                ..pre[i]
            },
    )
}

/// Classifies every pixel of the grid against the color of pixel `(0, 0)`:
/// a pixel becomes `part` exactly when its color differs from the reference
/// color by at least `threshold` perceptual units. Colors and scan tags are
/// untouched. Fails with `EmptyImage` exactly when the grid has no pixels,
/// leaving the grid unchanged.
pub fn classify(img: &mut Image, threshold: u32) -> (r: Result<(), ShapeError>)
    requires
        old(img).wf(),
    ensures
        final (img).wf(),
        final (img).spec_width() == old(img).spec_width(),
        final (img).spec_height() == old(img).spec_height(),
        match r {
            Ok(()) => {
                &&& old(img).area() > 0
                &&& final (img).cells() == classified_cells(old(img).cells(), threshold)
                &&& forall|i: int|
                    0 <= i < final (img).cells().len() ==> #[trigger] cell_classified(
                        old(img).cells(),
                        final (img).cells(),
                        i,
                        threshold,
                    )
            },
            Err(e) => {
                &&& e == ShapeError::EmptyImage
                &&& old(img).area() == 0
                &&& final (img).cells() == old(img).cells()
            },
        },
{
    let n = img.len();
    if n == 0 {
        return Err(ShapeError::EmptyImage);
    }
    let rf = *img.at_flat(0);
    let ghost orig = *img;
    let mut i: usize = 0;
    while i < n
        invariant
            img.wf(),
            orig.wf(),
            img.spec_width() == orig.spec_width(),
            img.spec_height() == orig.spec_height(),
            img.cells().len() == orig.cells().len() == n,
            i <= n,
            rf == orig.cells()[0],
            forall|k: int| i <= k < n ==> img.cells()[k] == orig.cells()[k],
            forall|k: int|
                0 <= k < i ==> #[trigger] cell_classified(
                    orig.cells(),
                    img.cells(),
                    k,
                    threshold,
                ),
        decreases n - i,
    {
        let px = *img.at_flat(i);
        let part = color_distance_at_least(
            rf.red,
            rf.green,
            rf.blue,
            px.red,
            px.green,
            px.blue,
            threshold,
        );
        let ghost pre_cells = img.cells();
        let cell = img.at_flat_mut(i);
        cell.is_part = part;
        proof {
            assert forall|k: int|
                0 <= k < i + 1 implies #[trigger] cell_classified(
                orig.cells(),
                img.cells(),
                k,
                threshold,
            ) by {
                if k < i {
                    assert(cell_classified(orig.cells(), pre_cells, k, threshold));
                    assert(img.cells()[k] == pre_cells[k]);
                } else {
                    assert(img.cells()[k] == *cell);
                }
            }
        }
        i = i + 1;
    }
    proof {
        assert forall|k: int|
            0 <= k < n implies img.cells()[k] == #[trigger] classified_cells(
            orig.cells(),
            threshold,
        )[k] by {
            assert(cell_classified(orig.cells(), img.cells(), k, threshold));
        }
        assert(img.cells() =~= classified_cells(orig.cells(), threshold));
    }
    Ok(())
}

/// On a grid whose every pixel carries the reference color, classification
/// with a positive threshold marks every pixel background — the perceptual
/// distance of a color to itself is below any positive threshold — and the
/// part count is zero, so no centroid exists.
pub proof fn lemma_uniform_grid_all_background(
    pre: Seq<Pixel>,
    post: Seq<Pixel>,
    threshold: u32,
)
    requires
        threshold >= 1,
        post.len() == pre.len(),
        pre.len() >= 1,
        forall|i: int| 0 <= i < pre.len() ==> same_rgb(#[trigger] pre[i], pre[0]),
        forall|i: int| 0 <= i < post.len() ==> #[trigger] cell_classified(pre, post, i, threshold),
    ensures
        forall|i: int| 0 <= i < post.len() ==> !(#[trigger] post[i]).is_part,
        crate::centroid::part_count(post) == 0,
{
    assert forall|i: int| 0 <= i < post.len() implies !(#[trigger] post[i]).is_part by {
        assert(same_rgb(pre[i], pre[0]));
        assert(cell_classified(pre, post, i, threshold));
    }
    crate::centroid::lemma_all_background_zero_count(post, post.len() as int);
}

} // verus!
