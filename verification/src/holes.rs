//! The hole-closing pass: drives the region scanner across every pixel not
//! yet visited, measures each region's pixel count against the image area,
//! and flips the class of every region whose share of the area stays below
//! a configurable fraction — removing small background islands (holes in
//! the subject) as well as small foreground noise.

use vstd::prelude::*;
use crate::grid::{
    lemma_flat_index_bounds, lemma_flat_index_decompose, same_rgb, Image, Pixel,
};
use crate::scan::{
    class_at, close_hole, count_adjacent, fill_open, fill_reachable, get_scan_id, hole_visitor,
    lemma_reachable_transfer, newly_stamped, region_idx, scan_cell_ok, stamped_set, tag_at,
};

verus! {

/// A region of `count` pixels is small against a grid of `area` pixels when
/// its share of the area stays strictly below the fraction `num / den`.
pub open spec fn spec_region_is_small(count: int, num: int, den: int, area: int) -> bool {
    count * den < num * area
}

/// The strict comparison `count / area < num / den`, carried out on exact
/// integer products: a region exactly at the threshold is not small.
pub fn region_is_small(count: usize, num: u64, den: u64, area: usize) -> (r: bool)
    requires
        count <= u64::MAX,
        area <= u64::MAX,
    ensures
        r == spec_region_is_small(count as int, num as int, den as int, area as int),
{
    proof {
        assert((count as int) * (den as int) < u128::MAX) by (nonlinear_arith)
            requires
                count <= u64::MAX,
                den <= u64::MAX,
        ;
        assert((num as int) * (area as int) < u128::MAX) by (nonlinear_arith)
            requires
                num <= u64::MAX,
                area <= u64::MAX,
        ;
    }
    (count as u128) * (den as u128) < (num as u128) * (area as u128)
}

/// A region whose size stands exactly at the threshold share of the image
/// area is not flipped — the comparison is strict — while a region one
/// pixel smaller is.
pub proof fn lemma_threshold_boundary(count: int, num: int, den: int, area: int)
    requires
        den > 0,
        count * den == num * area,
    ensures
        !spec_region_is_small(count, num, den, area),
        spec_region_is_small(count - 1, num, den, area),
{
    assert((count - 1) * den == count * den - den) by (nonlinear_arith);
}

/// The cell store after a measuring scan: every cell of the region takes
/// the scan's tag and keeps everything else.
pub open spec fn stamp_region(cells: Seq<Pixel>, reg: Set<int>, gen: usize) -> Seq<Pixel> {
    Seq::new(
        cells.len(),
        |i: int|
            if reg.contains(i) {
                Pixel { scan_id: gen, ..cells[i] }
            } else {
                cells[i]
            },
    )
}

/// The cell store after a hole-closing scan: every cell of the region takes
/// the scan's tag and the class opposite to `kind`, and keeps its color.
pub open spec fn flip_region(cells: Seq<Pixel>, reg: Set<int>, kind: bool, gen: usize) -> Seq<
    Pixel,
> {
    Seq::new(
        cells.len(),
        |i: int|
            if reg.contains(i) {
                Pixel { is_part: !kind, scan_id: gen, ..cells[i] }
            } else {
                cells[i]
            },
    )
}

/// What the hole-closing pass leaves in the cell store, cell for cell: the
/// row-major walk of a `w` by `h` grid from cell `idx` on, handing out scan
/// generations from `counter`. A cell not yet claimed by any scan seeds a
/// measuring scan, which stamps the cell's whole region with a fresh
/// generation; when the region's pixel count is a strictly smaller share of
/// the image area than `num / den`, a second fresh generation flips the
/// region to the opposite class. Everything else is left alone.
pub open spec fn pass_result(
    cells: Seq<Pixel>,
    w: int,
    h: int,
    num: int,
    den: int,
    idx: int,
    counter: usize,
) -> Seq<Pixel>
    decreases cells.len() - idx,
{
    if idx < 0 || idx >= cells.len() {
        cells
    } else if cells[idx].scan_id != 0 {
        pass_result(cells, w, h, num, den, idx + 1, counter)
    } else {
        let kind = cells[idx].is_part;
        let reg = region_idx(cells, w, h, kind, counter, idx % w, idx / w);
        let count = reg.len() as int;
        if count > 0 && spec_region_is_small(count, num, den, w * h) {
            pass_result(
                flip_region(cells, reg, kind, ((counter + 1) as usize)),
                w,
                h,
                num,
                den,
                idx + 1,
                ((counter + 2) as usize),
            )
        } else {
            pass_result(
                stamp_region(cells, reg, counter),
                w,
                h,
                num,
                den,
                idx + 1,
                ((counter + 1) as usize),
            )
        }
    }
}

/// The pass leaves a grid alone from any point where every remaining cell
/// already carries a scan tag.
pub proof fn lemma_pass_skips_tagged(
    cells: Seq<Pixel>,
    w: int,
    h: int,
    num: int,
    den: int,
    idx: int,
    counter: usize,
)
    requires
        forall|i: int| idx <= i < cells.len() ==> (#[trigger] cells[i]).scan_id != 0,
    ensures
        pass_result(cells, w, h, num, den, idx, counter) == cells,
    decreases cells.len() - idx,
{
    if 0 <= idx < cells.len() {
        lemma_pass_skips_tagged(cells, w, h, num, den, idx + 1, counter);
    }
}

/// A scan from an untagged seed stamps exactly the seed's region: the
/// scanner's stamped set is the region's index set, and every cell either
/// keeps its whole record or takes the tag and the visitor's class.
proof fn lemma_scan_step(pre: Image, post: Image, set_class: Option<bool>, gen: usize, xs: int, ys: int)
    requires
        pre.wf(),
        pre.spec_width() == post.spec_width(),
        pre.spec_height() == post.spec_height(),
        pre.cells().len() == post.cells().len(),
        pre.in_bounds(xs, ys),
        tag_at(pre, xs, ys) != gen,
        forall|i: int|
            0 <= i < pre.cells().len() ==> #[trigger] scan_cell_ok(
                pre,
                post,
                set_class,
                gen,
                class_at(pre, xs, ys),
                i,
            ),
        forall|x: int, y: int|
            pre.in_bounds(x, y) ==> (newly_stamped(pre, post, gen, pre.pidx(x, y))
                <==> #[trigger] fill_reachable(
                pre.cells(),
                pre.spec_width() as int,
                pre.spec_height() as int,
                class_at(pre, xs, ys),
                gen,
                xs,
                ys,
                x,
                y,
            )),
    ensures
        stamped_set(pre, post, gen) == region_idx(
            pre.cells(),
            pre.spec_width() as int,
            pre.spec_height() as int,
            class_at(pre, xs, ys),
            gen,
            xs,
            ys,
        ),
        forall|i: int|
            0 <= i < pre.cells().len() ==> (#[trigger] post.cells()[i]) == (
            if region_idx(
                pre.cells(),
                pre.spec_width() as int,
                pre.spec_height() as int,
                class_at(pre, xs, ys),
                gen,
                xs,
                ys,
            ).contains(i) {
                Pixel {
                    is_part: match set_class {
                        Some(c) => c,
                        None => pre.cells()[i].is_part,
                    },
                    scan_id: gen,
                    ..pre.cells()[i]
                }
            } else {
                pre.cells()[i]
            }),
{
    let w = pre.spec_width() as int;
    let h = pre.spec_height() as int;
    let kind = class_at(pre, xs, ys);
    let reg = region_idx(pre.cells(), w, h, kind, gen, xs, ys);
    assert forall|i: int| #[trigger] reg.contains(i) implies stamped_set(
        pre,
        post,
        gen,
    ).contains(i) by {
        let (x, y) = choose|x: int, y: int|
            0 <= x < w && 0 <= y < h && i == y * w + x && #[trigger] fill_reachable(
                pre.cells(),
                w,
                h,
                kind,
                gen,
                xs,
                ys,
                x,
                y,
            );
        lemma_flat_index_bounds(w, h, x, y);
        assert(newly_stamped(pre, post, gen, pre.pidx(x, y)));
        assert(pre.pidx(x, y) == i);
    }
    assert forall|i: int| #[trigger] stamped_set(pre, post, gen).contains(i) implies reg.contains(
        i,
    ) by {
        lemma_flat_index_decompose(w, h, i);
        let x = i % w;
        let y = i / w;
        assert(pre.pidx(x, y) == i);
        assert(pre.in_bounds(x, y));
        assert(fill_reachable(pre.cells(), w, h, kind, gen, xs, ys, x, y));
        assert(reg.contains(i));
    }
    assert(stamped_set(pre, post, gen) =~= reg);
    assert forall|i: int| 0 <= i < pre.cells().len() implies (#[trigger] post.cells()[i]) == (
    if reg.contains(i) {
        Pixel {
            is_part: match set_class {
                Some(c) => c,
                None => pre.cells()[i].is_part,
            },
            scan_id: gen,
            ..pre.cells()[i]
        }
    } else {
        pre.cells()[i]
    }) by {
        assert(scan_cell_ok(pre, post, set_class, gen, kind, i));
        if reg.contains(i) {
            assert(stamped_set(pre, post, gen).contains(i));
            assert(newly_stamped(pre, post, gen, i));
        } else {
            assert(!newly_stamped(pre, post, gen, i));
        }
    }
}

/// One full hole-closing pass over a freshly classified grid (all scan tags
/// still zero). Every pixel is claimed by exactly one size-measuring scan;
/// each measured region whose pixel count, as a share of the image area,
/// stays strictly below `num / den` is flipped to the opposite class by a
/// second scan over the same region, and every other region keeps its
/// classes. The resulting cell store is exactly `pass_result` of the input:
/// dimensions and colors never change, and only classes and scan tags move.
pub fn close_small_regions(img: &mut Image, num: u64, den: u64)
    requires
        old(img).wf(),
        old(img).area() <= u64::MAX,
        2 * old(img).area() + 1 < usize::MAX,
        forall|i: int| 0 <= i < old(img).cells().len() ==> (#[trigger] old(img).cells()[i]).scan_id
            == 0,
    ensures
        final (img).wf(),
        final (img).spec_width() == old(img).spec_width(),
        final (img).spec_height() == old(img).spec_height(),
        final (img).cells().len() == old(img).cells().len(),
        final (img).cells() == pass_result(
            old(img).cells(),
            old(img).spec_width() as int,
            old(img).spec_height() as int,
            num as int,
            den as int,
            0,
            1,
        ),
        forall|i: int|
            0 <= i < final (img).cells().len() ==> same_rgb(
                #[trigger] final (img).cells()[i],
                old(img).cells()[i],
            ),
        forall|i: int|
            0 <= i < final (img).cells().len() ==> (#[trigger] final (img).cells()[i]).scan_id
                != 0,
{
    let ghost g_start = *img;
    let ghost wi = img.spec_width() as int;
    let ghost h = img.spec_height() as int;
    let ghost ni = num as int;
    let ghost di = den as int;
    let w = img.width();
    let n = img.len();
    let mut next_gen: usize = 1;
    let mut idx: usize = 0;
    while idx < n
        invariant
            img.wf(),
            g_start.wf(),
            img.spec_width() == g_start.spec_width(),
            img.spec_height() == g_start.spec_height(),
            img.cells().len() == g_start.cells().len(),
            wi == g_start.spec_width() as int,
            h == g_start.spec_height() as int,
            ni == num as int,
            di == den as int,
            w == g_start.spec_width(),
            n == g_start.cells().len(),
            n == g_start.area(),
            n <= u64::MAX,
            idx <= n,
            1 <= next_gen,
            next_gen <= 1 + 2 * idx,
            2 * (n as int) + 1 < usize::MAX,
            forall|i: int| 0 <= i < idx ==> (#[trigger] img.cells()[i]).scan_id != 0,
            forall|i: int|
                0 <= i < n ==> same_rgb(#[trigger] img.cells()[i], g_start.cells()[i]),
            forall|i: int| 0 <= i < n ==> (#[trigger] img.cells()[i]).scan_id < next_gen,
            pass_result(g_start.cells(), wi, h, ni, di, 0, 1) == pass_result(
                img.cells(),
                wi,
                h,
                ni,
                di,
                idx as int,
                next_gen,
            ),
        decreases n - idx,
    {
        proof {
            if w == 0 {
                assert(g_start.area() == 0);
            }
            lemma_flat_index_decompose(w as int, img.spec_height() as int, idx as int);
        }
        let x = idx % w;
        let y = idx / w;
        proof {
            assert(img.pidx(x as int, y as int) == idx as int);
        }
        if img.at(x, y).scan_id == 0 {
            let gen = get_scan_id(&mut next_gen);
            let ghost pre = *img;
            let ghost kind = class_at(pre, x as int, y as int);
            let ghost reg = region_idx(pre.cells(), wi, h, kind, gen, x as int, y as int);
            let cnt = count_adjacent(img, x, y, gen);
            proof {
                assert(tag_at(pre, x as int, y as int) != gen);
                assert forall|i: int| 0 <= i < n implies (#[trigger] img.cells()[i]).scan_id
                    < next_gen && same_rgb(img.cells()[i], g_start.cells()[i]) && (i < idx
                    ==> img.cells()[i].scan_id != 0) by {
                    assert(scan_cell_ok(pre, *img, None, gen, kind, i));
                }
                assert(img.cells()[idx as int].scan_id == gen);
                lemma_scan_step(pre, *img, None, gen, x as int, y as int);
                assert(cnt == reg.len());
                assert forall|i: int|
                    0 <= i < n implies (#[trigger] img.cells()[i]) == stamp_region(
                    pre.cells(),
                    reg,
                    gen,
                )[i] by {}
                assert(img.cells() =~= stamp_region(pre.cells(), reg, gen));
            }
            if cnt != 0 && region_is_small(cnt, num, den, n) {
                let gen2 = get_scan_id(&mut next_gen);
                let ghost mid = *img;
                let _filled = close_hole(img, x, y, gen2);
                proof {
                    // the measuring tag at the seed differs from the new one
                    assert(tag_at(mid, x as int, y as int) == gen);
                    assert(class_at(mid, x as int, y as int) == kind);
                    assert(hole_visitor(mid, x as int, y as int) == Some(!kind));
                    assert forall|i: int| 0 <= i < n implies (#[trigger] img.cells()[i]).scan_id
                        < next_gen && same_rgb(img.cells()[i], g_start.cells()[i]) && (i < idx
                        ==> img.cells()[i].scan_id != 0) by {
                        assert(scan_cell_ok(
                            mid,
                            *img,
                            hole_visitor(mid, x as int, y as int),
                            gen2,
                            kind,
                            i,
                        ));
                    }
                    assert(img.cells()[idx as int].scan_id != 0);
                    // the flipping scan is open exactly where the measuring
                    // scan was: classes are unchanged and no cell carries
                    // either generation beforehand
                    assert forall|a: int, b: int|
                        #![trigger fill_open(pre.cells(), wi, h, kind, gen, a, b)]
                        #![trigger fill_open(mid.cells(), wi, h, kind, gen2, a, b)]
                        fill_open(pre.cells(), wi, h, kind, gen, a, b) <==> fill_open(
                        mid.cells(),
                        wi,
                        h,
                        kind,
                        gen2,
                        a,
                        b,
                    ) by {
                        if 0 <= a < wi && 0 <= b < h {
                            lemma_flat_index_bounds(wi, h, a, b);
                            let j = b * wi + a;
                            assert(mid.cells()[j] == stamp_region(pre.cells(), reg, gen)[j]);
                            assert(pre.cells()[j].scan_id < gen);
                        }
                    }
                    // hence it floods the same region
                    let reg2 = region_idx(mid.cells(), wi, h, kind, gen2, x as int, y as int);
                    assert forall|i: int| #[trigger] reg.contains(i) implies reg2.contains(i) by {
                        let (xq, yq) = choose|xq: int, yq: int|
                            0 <= xq < wi && 0 <= yq < h && i == yq * wi + xq
                                && #[trigger] fill_reachable(
                                pre.cells(),
                                wi,
                                h,
                                kind,
                                gen,
                                x as int,
                                y as int,
                                xq,
                                yq,
                            );
                        lemma_reachable_transfer(
                            pre.cells(),
                            gen,
                            mid.cells(),
                            gen2,
                            wi,
                            h,
                            kind,
                            x as int,
                            y as int,
                            xq,
                            yq,
                        );
                    }
                    assert forall|i: int| #[trigger] reg2.contains(i) implies reg.contains(i) by {
                        let (xq, yq) = choose|xq: int, yq: int|
                            0 <= xq < wi && 0 <= yq < h && i == yq * wi + xq
                                && #[trigger] fill_reachable(
                                mid.cells(),
                                wi,
                                h,
                                kind,
                                gen2,
                                x as int,
                                y as int,
                                xq,
                                yq,
                            );
                        lemma_reachable_transfer(
                            mid.cells(),
                            gen2,
                            pre.cells(),
                            gen,
                            wi,
                            h,
                            kind,
                            x as int,
                            y as int,
                            xq,
                            yq,
                        );
                    }
                    assert(reg2 =~= reg);
                    // the scan's effect over the measured grid, then over
                    // the entry grid
                    let flip_to: Option<bool> = Some(!kind);
                    assert forall|i: int|
                        0 <= i < n implies #[trigger] scan_cell_ok(
                        mid,
                        *img,
                        flip_to,
                        gen2,
                        class_at(mid, x as int, y as int),
                        i,
                    ) by {
                        assert(scan_cell_ok(
                            mid,
                            *img,
                            hole_visitor(mid, x as int, y as int),
                            gen2,
                            class_at(mid, x as int, y as int),
                            i,
                        ));
                    }
                    lemma_scan_step(mid, *img, flip_to, gen2, x as int, y as int);
                    assert forall|i: int|
                        0 <= i < n implies (#[trigger] img.cells()[i]) == flip_region(
                        pre.cells(),
                        reg,
                        kind,
                        gen2,
                    )[i] by {
                        assert(mid.cells()[i] == stamp_region(pre.cells(), reg, gen)[i]);
                    }
                    assert(img.cells() =~= flip_region(pre.cells(), reg, kind, gen2));
                    // one model step: measure, find the region small, flip
                    assert(pre.cells()[idx as int].scan_id == 0);
                    assert(reg.len() as int > 0 && spec_region_is_small(
                        reg.len() as int,
                        ni,
                        di,
                        wi * h,
                    ));
                    assert(pass_result(pre.cells(), wi, h, ni, di, idx as int, gen)
                        == pass_result(
                        flip_region(pre.cells(), reg, kind, gen2),
                        wi,
                        h,
                        ni,
                        di,
                        idx as int + 1,
                        next_gen,
                    ));
                    assert(pass_result(g_start.cells(), wi, h, ni, di, 0, 1) == pass_result(
                        img.cells(),
                        wi,
                        h,
                        ni,
                        di,
                        idx as int + 1,
                        next_gen,
                    ));
                }
            } else {
                proof {
                    // one model step: measure, keep the region
                    assert(cnt >= 1);
                    assert(pre.cells()[idx as int].scan_id == 0);
                    assert(!(reg.len() as int > 0 && spec_region_is_small(
                        reg.len() as int,
                        ni,
                        di,
                        wi * h,
                    )));
                    assert(pass_result(pre.cells(), wi, h, ni, di, idx as int, gen)
                        == pass_result(
                        stamp_region(pre.cells(), reg, gen),
                        wi,
                        h,
                        ni,
                        di,
                        idx as int + 1,
                        next_gen,
                    ));
                    assert(pass_result(g_start.cells(), wi, h, ni, di, 0, 1) == pass_result(
                        img.cells(),
                        wi,
                        h,
                        ni,
                        di,
                        idx as int + 1,
                        next_gen,
                    ));
                }
            }
        } else {
            proof {
                // one model step: the cell was already claimed, nothing to do
                assert(img.cells()[idx as int].scan_id != 0);
                assert(pass_result(img.cells(), wi, h, ni, di, idx as int, next_gen)
                    == pass_result(img.cells(), wi, h, ni, di, idx as int + 1, next_gen));
            }
        }
        idx = idx + 1;
    }
    proof {
        assert(pass_result(img.cells(), wi, h, ni, di, n as int, next_gen) == img.cells());
    }
}

} // verus!
