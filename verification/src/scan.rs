//! The region scanner: iterative, stack-based flood fill over the grid.
//! One scan groups the pixels that share the seed's class and are connected
//! to the seed through 8-adjacent steps, tags every visited pixel with the
//! scan's generation so that no pixel is visited twice, and can flip the
//! class of every visited pixel on behalf of the caller.

use vstd::prelude::*;
use crate::grid::{lemma_flat_index_bounds, lemma_flat_index_injective, same_rgb, Image, Pixel};

verus! {

/// `(x, y)` is one of the up to eight neighbors of `(x0, y0)`.
pub open spec fn adjacent(x0: int, y0: int, x: int, y: int) -> bool {
    &&& x0 - 1 <= x <= x0 + 1
    &&& y0 - 1 <= y <= y0 + 1
    &&& !(x == x0 && y == y0)
}

/// The neighbor list of `(x0, y0)` in row-major order: the row above, the
/// seed's own row, the row below, each left to right, with the seed itself
/// and coordinates below zero left out.
pub open spec fn spec_neighbors(x0: usize, y0: usize) -> Seq<(usize, usize)> {
    let row_above: Seq<(usize, usize)> = if y0 > 0 {
        (if x0 > 0 {
            seq![(((x0 - 1) as usize), ((y0 - 1) as usize))]
        } else {
            Seq::empty()
        }) + seq![(x0, ((y0 - 1) as usize)), (((x0 + 1) as usize), ((y0 - 1) as usize))]
    } else {
        Seq::empty()
    };
    let row_same: Seq<(usize, usize)> = (if x0 > 0 {
        seq![(((x0 - 1) as usize), y0)]
    } else {
        Seq::empty()
    }) + seq![(((x0 + 1) as usize), y0)];
    let row_below: Seq<(usize, usize)> = (if x0 > 0 {
        seq![(((x0 - 1) as usize), ((y0 + 1) as usize))]
    } else {
        Seq::empty()
    }) + seq![(x0, ((y0 + 1) as usize)), (((x0 + 1) as usize), ((y0 + 1) as usize))];
    row_above + row_same + row_below
}

/// The neighbors of `(x0, y0)`, in row-major order, clamped at the left and
/// top edges (a coordinate below zero is omitted, not wrapped). Neighbors
/// beyond the right or bottom edge of a grid are the caller's concern: no
/// grid bounds are known here.
pub fn get_sorrunding_indecies(x0: usize, y0: usize) -> (r: Vec<(usize, usize)>)
    requires
        x0 < usize::MAX,
        y0 < usize::MAX,
    ensures
        r@ == spec_neighbors(x0, y0),
        forall|k: int|
            0 <= k < r@.len() ==> adjacent(
                x0 as int,
                y0 as int,
                (#[trigger] r@[k]).0 as int,
                r@[k].1 as int,
            ),
        forall|x: usize, y: usize|
            adjacent(x0 as int, y0 as int, x as int, y as int) ==> r@.contains((x, y)),
        forall|k1: int, k2: int| 0 <= k1 < k2 < r@.len() ==> r@[k1] != r@[k2],
{
    let mut r: Vec<(usize, usize)> = Vec::new();
    if y0 > 0 {
        if x0 > 0 {
            r.push((x0 - 1, y0 - 1));
        }
        r.push((x0, y0 - 1));
        r.push((x0 + 1, y0 - 1));
    }
    if x0 > 0 {
        r.push((x0 - 1, y0));
    }
    r.push((x0 + 1, y0));
    if x0 > 0 {
        r.push((x0 - 1, y0 + 1));
    }
    r.push((x0, y0 + 1));
    r.push((x0 + 1, y0 + 1));
    proof {
        if y0 > 0 && x0 > 0 {
            assert(r@ =~= spec_neighbors(x0, y0));
        } else if y0 > 0 {
            assert(r@ =~= spec_neighbors(x0, y0));
        } else if x0 > 0 {
            assert(r@ =~= spec_neighbors(x0, y0));
        } else {
            assert(r@ =~= spec_neighbors(x0, y0));
        }
        assert forall|x: usize, y: usize|
            adjacent(x0 as int, y0 as int, x as int, y as int) implies r@.contains((x, y)) by {
            if y0 > 0 && x0 > 0 {
                assert(r@[0] == ((x0 - 1) as usize, (y0 - 1) as usize));
                assert(r@[1] == (x0, (y0 - 1) as usize));
                assert(r@[2] == ((x0 + 1) as usize, (y0 - 1) as usize));
                assert(r@[3] == ((x0 - 1) as usize, y0));
                assert(r@[4] == ((x0 + 1) as usize, y0));
                assert(r@[5] == ((x0 - 1) as usize, (y0 + 1) as usize));
                assert(r@[6] == (x0, (y0 + 1) as usize));
                assert(r@[7] == ((x0 + 1) as usize, (y0 + 1) as usize));
            } else if y0 > 0 {
                assert(r@[0] == (x0, (y0 - 1) as usize));
                assert(r@[1] == ((x0 + 1) as usize, (y0 - 1) as usize));
                assert(r@[2] == ((x0 + 1) as usize, y0));
                assert(r@[3] == (x0, (y0 + 1) as usize));
                assert(r@[4] == ((x0 + 1) as usize, (y0 + 1) as usize));
            } else if x0 > 0 {
                assert(r@[0] == ((x0 - 1) as usize, y0));
                assert(r@[1] == ((x0 + 1) as usize, y0));
                assert(r@[2] == ((x0 - 1) as usize, (y0 + 1) as usize));
                assert(r@[3] == (x0, (y0 + 1) as usize));
                assert(r@[4] == ((x0 + 1) as usize, (y0 + 1) as usize));
            } else {
                assert(r@[0] == ((x0 + 1) as usize, y0));
                assert(r@[1] == (x0, (y0 + 1) as usize));
                assert(r@[2] == ((x0 + 1) as usize, (y0 + 1) as usize));
            }
        }
    }
    r
}

/// The class of the cell at `(x, y)`.
pub open spec fn class_at(img: Image, x: int, y: int) -> bool {
    img.cells()[img.pidx(x, y)].is_part
}

/// The scan tag of the cell at `(x, y)`.
pub open spec fn tag_at(img: Image, x: int, y: int) -> usize {
    img.cells()[img.pidx(x, y)].scan_id
}

/// In grid state `cells` a flood-fill scan of generation `gen` over class
/// `kind` may step onto `(x, y)`: the cell exists, has the class the scan
/// matches, and does not yet carry the scan's tag.
pub open spec fn fill_open(
    cells: Seq<Pixel>,
    w: int,
    h: int,
    kind: bool,
    gen: usize,
    x: int,
    y: int,
) -> bool {
    &&& 0 <= x < w
    &&& 0 <= y < h
    &&& cells[y * w + x].is_part == kind
    &&& cells[y * w + x].scan_id != gen
}

/// A flood-fill path: every coordinate is a cell the scan may step onto,
/// and consecutive coordinates are 8-adjacent.
pub open spec fn fill_path(
    cells: Seq<Pixel>,
    w: int,
    h: int,
    kind: bool,
    gen: usize,
    p: Seq<(int, int)>,
) -> bool {
    &&& forall|k: int|
        0 <= k < p.len() ==> fill_open(cells, w, h, kind, gen, (#[trigger] p[k]).0, p[k].1)
    &&& forall|k: int|
        0 < k < p.len() ==> adjacent(p[k - 1].0, p[k - 1].1, (#[trigger] p[k]).0, p[k].1)
}

/// `(x, y)` lies in the region of seed `(x0, y0)`: some flood-fill path
/// leads from the seed to it.
pub open spec fn fill_reachable(
    cells: Seq<Pixel>,
    w: int,
    h: int,
    kind: bool,
    gen: usize,
    x0: int,
    y0: int,
    x: int,
    y: int,
) -> bool {
    exists|p: Seq<(int, int)>|
        {
            &&& #[trigger] fill_path(cells, w, h, kind, gen, p)
            &&& p.len() >= 1
            &&& p[0] == (x0, y0)
            &&& p[p.len() - 1] == (x, y)
        }
}

/// Between the grid states `pre` and `post`, the scan of generation `gen`
/// stamped the cell with flat index `i`.
pub open spec fn newly_stamped(pre: Image, post: Image, gen: usize, i: int) -> bool {
    &&& pre.cells()[i].scan_id != gen
    &&& post.cells()[i].scan_id == gen
}

/// The flat indices of all cells stamped between `pre` and `post`.
pub open spec fn stamped_set(pre: Image, post: Image, gen: usize) -> Set<int> {
    Set::new(|i: int| 0 <= i < pre.cells().len() && newly_stamped(pre, post, gen, i))
}

/// How one scan may rewrite the cell at flat index `i`: either the cell is
/// untouched, or the scan stamped it — then it kept its color, had the
/// seed's class and not yet the scan's tag, carries the tag now, and
/// carries the class the visitor writes (its own class when the scan only
/// measures).
pub open spec fn scan_cell_ok(
    pre: Image,
    post: Image,
    set_class: Option<bool>,
    gen: usize,
    kind: bool,
    i: int,
) -> bool {
    let o = pre.cells()[i];
    let n = post.cells()[i];
    ||| n == o
    ||| {
        &&& same_rgb(n, o)
        &&& o.scan_id != gen
        &&& n.scan_id == gen
        &&& o.is_part == kind
        &&& n.is_part == (match set_class {
            Some(c) => c,
            None => o.is_part,
        })
    }
}

/// Every neighbor of `(x, y)` that the scan of generation `gen` could step
/// onto in grid state `g0` has been stamped between `g0` and `g`.
pub open spec fn neighbors_stamped(
    g0: Image,
    g: Image,
    gen: usize,
    kind: bool,
    x: int,
    y: int,
) -> bool {
    forall|a: int, b: int|
        #![trigger adjacent(x, y, a, b)]
        adjacent(x, y, a, b) && fill_open(
            g0.cells(),
            g0.spec_width() as int,
            g0.spec_height() as int,
            kind,
            gen,
            a,
            b,
        ) ==> newly_stamped(g0, g, gen, g0.pidx(a, b))
}

/// `(x, y)` still waits on the scan's work stack.
pub open spec fn pending(nodes: Seq<(usize, usize)>, x: int, y: int) -> bool {
    exists|k: int| 0 <= k < nodes.len() && (#[trigger] nodes[k]).0 == x && nodes[k].1 == y
}

/// A prefix of a flood-fill path is a flood-fill path.
proof fn lemma_path_prefix(
    cells: Seq<Pixel>,
    w: int,
    h: int,
    kind: bool,
    gen: usize,
    p: Seq<(int, int)>,
    n: int,
)
    requires
        fill_path(cells, w, h, kind, gen, p),
        0 <= n <= p.len(),
    ensures
        fill_path(cells, w, h, kind, gen, p.subrange(0, n)),
{
    let q = p.subrange(0, n);
    assert(forall|k: int| 0 <= k < n ==> (#[trigger] q[k]) == p[k]);
}

/// A flood-fill path extends by one step onto an adjacent open cell.
proof fn lemma_path_extend(
    cells: Seq<Pixel>,
    w: int,
    h: int,
    kind: bool,
    gen: usize,
    p: Seq<(int, int)>,
    x: int,
    y: int,
)
    requires
        fill_path(cells, w, h, kind, gen, p),
        p.len() >= 1,
        adjacent(p[p.len() - 1].0, p[p.len() - 1].1, x, y),
        fill_open(cells, w, h, kind, gen, x, y),
    ensures
        fill_path(cells, w, h, kind, gen, p.push((x, y))),
        p.push((x, y)).len() == p.len() + 1,
        p.push((x, y))[0] == p[0],
        p.push((x, y))[p.len() as int] == (x, y),
{
    let q = p.push((x, y));
    assert(forall|k: int| 0 <= k < p.len() ==> (#[trigger] q[k]) == p[k]);
    assert(q[q.len() - 1] == (x, y));
}

/// Walking any flood-fill path that starts on a stamped cell leads only to
/// stamped cells, once the stamped cells are closed under adjacency.
proof fn lemma_path_stamped(g0: Image, g: Image, gen: usize, kind: bool, p: Seq<(int, int)>)
    requires
        g0.wf(),
        fill_path(
            g0.cells(),
            g0.spec_width() as int,
            g0.spec_height() as int,
            kind,
            gen,
            p,
        ),
        p.len() >= 1,
        newly_stamped(g0, g, gen, g0.pidx(p[0].0, p[0].1)),
        forall|x: int, y: int|
            g0.in_bounds(x, y) && newly_stamped(g0, g, gen, #[trigger] g0.pidx(x, y))
                ==> neighbors_stamped(g0, g, gen, kind, x, y),
    ensures
        newly_stamped(g0, g, gen, g0.pidx(p[p.len() - 1].0, p[p.len() - 1].1)),
    decreases p.len(),
{
    let w = g0.spec_width() as int;
    let h = g0.spec_height() as int;
    if p.len() > 1 {
        let n = p.len() - 1;
        let q = p.subrange(0, n);
        lemma_path_prefix(g0.cells(), w, h, kind, gen, p, n);
        lemma_path_stamped(g0, g, gen, kind, q);
        let prev = p[n - 1];
        let last = p[n];
        assert(q[q.len() - 1] == prev);
        assert(fill_open(g0.cells(), w, h, kind, gen, prev.0, prev.1));
        assert(g0.in_bounds(prev.0, prev.1));
        assert(newly_stamped(g0, g, gen, g0.pidx(prev.0, prev.1)));
        assert(neighbors_stamped(g0, g, gen, kind, prev.0, prev.1));
        assert(adjacent(prev.0, prev.1, last.0, last.1));
        assert(fill_open(g0.cells(), w, h, kind, gen, last.0, last.1));
    }
}

/// The flat indices of the cells in the region of seed `(x0, y0)`: those a
/// flood-fill scan of generation `gen` over class `kind` can reach.
pub open spec fn region_idx(
    cells: Seq<Pixel>,
    w: int,
    h: int,
    kind: bool,
    gen: usize,
    x0: int,
    y0: int,
) -> Set<int> {
    Set::new(
        |i: int|
            exists|x: int, y: int|
                0 <= x < w && 0 <= y < h && i == y * w + x && #[trigger] fill_reachable(
                    cells,
                    w,
                    h,
                    kind,
                    gen,
                    x0,
                    y0,
                    x,
                    y,
                ),
    )
}

/// Two scans whose open-cell tests agree on every coordinate reach the same
/// cells from the same seed: a region depends only on which cells are open.
pub proof fn lemma_reachable_transfer(
    c1: Seq<Pixel>,
    gen1: usize,
    c2: Seq<Pixel>,
    gen2: usize,
    w: int,
    h: int,
    kind: bool,
    x0: int,
    y0: int,
    x: int,
    y: int,
)
    requires
        forall|a: int, b: int|
            #![trigger fill_open(c1, w, h, kind, gen1, a, b)]
            #![trigger fill_open(c2, w, h, kind, gen2, a, b)]
            fill_open(c1, w, h, kind, gen1, a, b) <==> fill_open(c2, w, h, kind, gen2, a, b),
        fill_reachable(c1, w, h, kind, gen1, x0, y0, x, y),
    ensures
        fill_reachable(c2, w, h, kind, gen2, x0, y0, x, y),
{
    let p = choose|p: Seq<(int, int)>|
        {
            &&& #[trigger] fill_path(c1, w, h, kind, gen1, p)
            &&& p.len() >= 1
            &&& p[0] == (x0, y0)
            &&& p[p.len() - 1] == (x, y)
        };
    assert forall|k: int|
        0 <= k < p.len() implies fill_open(
        c2,
        w,
        h,
        kind,
        gen2,
        (#[trigger] p[k]).0,
        p[k].1,
    ) by {
        assert(fill_open(c1, w, h, kind, gen1, p[k].0, p[k].1));
    }
    assert(fill_path(c2, w, h, kind, gen2, p));
}

/// A region swallows every cell that is open for the scan and adjacent to
/// one of the region's cells — diagonal neighbors included. In particular a
/// corner-only bridge between two same-class pixel groups joins them into
/// one region.
pub proof fn lemma_region_extends_across_adjacency(
    cells: Seq<Pixel>,
    w: int,
    h: int,
    kind: bool,
    gen: usize,
    x0: int,
    y0: int,
    x1: int,
    y1: int,
    x2: int,
    y2: int,
)
    requires
        fill_reachable(cells, w, h, kind, gen, x0, y0, x1, y1),
        adjacent(x1, y1, x2, y2),
        fill_open(cells, w, h, kind, gen, x2, y2),
    ensures
        fill_reachable(cells, w, h, kind, gen, x0, y0, x2, y2),
{
    let p = choose|p: Seq<(int, int)>|
        {
            &&& #[trigger] fill_path(cells, w, h, kind, gen, p)
            &&& p.len() >= 1
            &&& p[0] == (x0, y0)
            &&& p[p.len() - 1] == (x1, y1)
        };
    lemma_path_extend(cells, w, h, kind, gen, p, x2, y2);
    let q = p.push((x2, y2));
    assert(fill_path(cells, w, h, kind, gen, q) && q.len() >= 1 && q[0] == (x0, y0) && q[q.len()
        - 1] == (x2, y2));
}

/// In a grid whose every cell is open for the scan, every cell lies in the
/// region of the corner seed `(0, 0)`: one region covers the whole grid.
pub proof fn lemma_full_grid_reachable(
    cells: Seq<Pixel>,
    w: int,
    h: int,
    kind: bool,
    gen: usize,
    x: int,
    y: int,
)
    requires
        forall|a: int, b: int|
            0 <= a < w && 0 <= b < h ==> #[trigger] fill_open(cells, w, h, kind, gen, a, b),
        0 <= x < w,
        0 <= y < h,
    ensures
        fill_reachable(cells, w, h, kind, gen, 0, 0, x, y),
    decreases x + y,
{
    if x == 0 && y == 0 {
        let p0: Seq<(int, int)> = seq![(0int, 0int)];
        assert(fill_open(cells, w, h, kind, gen, 0, 0));
        assert(fill_path(cells, w, h, kind, gen, p0));
        assert(p0[0] == (0int, 0int) && p0[p0.len() - 1] == (0int, 0int));
        assert(fill_reachable(cells, w, h, kind, gen, 0, 0, 0, 0));
    } else if x > 0 {
        lemma_full_grid_reachable(cells, w, h, kind, gen, x - 1, y);
        assert(adjacent(x - 1, y, x, y));
        assert(fill_open(cells, w, h, kind, gen, x, y));
        lemma_region_extends_across_adjacency(cells, w, h, kind, gen, 0, 0, x - 1, y, x, y);
    } else {
        lemma_full_grid_reachable(cells, w, h, kind, gen, x, y - 1);
        assert(adjacent(x, y - 1, x, y));
        assert(fill_open(cells, w, h, kind, gen, x, y));
        lemma_region_extends_across_adjacency(cells, w, h, kind, gen, 0, 0, x, y - 1, x, y);
    }
}

/// Hands out the next scan generation and advances the counter. Generations
/// start above the sentinel tag `0` ("never visited") and are never reused,
/// so a single comparison tells whether the current scan has claimed a pixel,
/// with no state to clear between scans.
pub fn get_scan_id(counter: &mut usize) -> (gen: usize)
    requires
        1 <= *old(counter) < usize::MAX,
    ensures
        gen == *old(counter),
        *final (counter) == *old(counter) + 1,
        gen >= 1,
{
    let gen = *counter;
    *counter = *counter + 1;
    gen
}

/// Flood fill, seeded at `(x0, y0)`, over the pixels that share the seed's
/// class, using an explicit work stack (not call recursion). The scan stamps
/// every pixel of the seed's 8-connected region with `scan_id`, skipping
/// pixels that already carry that tag, and writes `set_class` (when given)
/// into every stamped pixel. The returned count is the number of pixels
/// stamped: the region's full size, the seed included — zero only when the
/// seed already carried the tag, in which case nothing changes.
#[verifier::rlimit(100)]
pub fn for_all_of_kind_adjacent(
    img: &mut Image,
    x0: usize,
    y0: usize,
    set_class: Option<bool>,
    scan_id: usize,
) -> (count: usize)
    requires
        old(img).wf(),
        old(img).in_bounds(x0 as int, y0 as int),
    ensures
        final (img).wf(),
        final (img).spec_width() == old(img).spec_width(),
        final (img).spec_height() == old(img).spec_height(),
        forall|i: int|
            0 <= i < old(img).cells().len() ==> #[trigger] scan_cell_ok(
                *old(img),
                *final (img),
                set_class,
                scan_id,
                class_at(*old(img), x0 as int, y0 as int),
                i,
            ),
        count == stamped_set(*old(img), *final (img), scan_id).len(),
        tag_at(*old(img), x0 as int, y0 as int) == scan_id ==> final (img).cells() == old(
            img,
        ).cells() && count == 0,
        tag_at(*old(img), x0 as int, y0 as int) != scan_id ==> {
            &&& newly_stamped(
                *old(img),
                *final (img),
                scan_id,
                old(img).pidx(x0 as int, y0 as int),
            )
            &&& count >= 1
            &&& forall|x: int, y: int|
                old(img).in_bounds(x, y) ==> (newly_stamped(
                    *old(img),
                    *final (img),
                    scan_id,
                    old(img).pidx(x, y),
                ) <==> #[trigger] fill_reachable(
                    old(img).cells(),
                    old(img).spec_width() as int,
                    old(img).spec_height() as int,
                    class_at(*old(img), x0 as int, y0 as int),
                    scan_id,
                    x0 as int,
                    y0 as int,
                    x,
                    y,
                ))
        },
{
    let ghost g0 = *img;
    let ghost w = g0.spec_width() as int;
    let ghost h = g0.spec_height() as int;
    let ghost seed_i = g0.pidx(x0 as int, y0 as int);
    let seed = *img.at(x0, y0);
    let kind = seed.is_part;
    proof {
        crate::grid::lemma_cells_len_bound(g0);
        lemma_flat_index_bounds(w, h, x0 as int, y0 as int);
        vstd::set_lib::lemma_int_range(0, g0.cells().len() as int);
    }
    if seed.scan_id == scan_id {
        proof {
            assert(stamped_set(g0, *img, scan_id) =~= Set::<int>::empty());
            assert(Set::<int>::empty().len() == 0);
        }
        return 0;
    }
    {
        let c = img.at_mut(x0, y0);
        c.scan_id = scan_id;
        match set_class {
            Some(v) => {
                c.is_part = v;
            },
            None => {},
        }
    }
    let mut nodes: Vec<(usize, usize)> = Vec::new();
    nodes.push((x0, y0));
    let mut count: usize = 1;
    proof {
        assert(newly_stamped(g0, *img, scan_id, seed_i));
        let p0: Seq<(int, int)> = seq![(x0 as int, y0 as int)];
        assert(fill_open(g0.cells(), w, h, kind, scan_id, x0 as int, y0 as int));
        assert(fill_path(g0.cells(), w, h, kind, scan_id, p0));
        assert(p0[0] == (x0 as int, y0 as int) && p0[p0.len() - 1] == (x0 as int, y0 as int));
        assert(fill_reachable(
            g0.cells(),
            w,
            h,
            kind,
            scan_id,
            x0 as int,
            y0 as int,
            x0 as int,
            y0 as int,
        ));
        assert(stamped_set(g0, *img, scan_id) =~= Set::<int>::empty().insert(seed_i));
        assert(stamped_set(g0, *img, scan_id).len() == 1);
        vstd::set_lib::lemma_len_subset(
            stamped_set(g0, *img, scan_id),
            vstd::set_lib::set_int_range(0, g0.cells().len() as int),
        );
        assert forall|x: int, y: int|
            g0.in_bounds(x, y) && newly_stamped(g0, *img, scan_id, #[trigger] g0.pidx(x, y))
            implies fill_reachable(
            g0.cells(),
            w,
            h,
            kind,
            scan_id,
            x0 as int,
            y0 as int,
            x,
            y,
        ) by {
            lemma_flat_index_bounds(w, h, x, y);
            if g0.pidx(x, y) != seed_i {
                assert(img.cells()[g0.pidx(x, y)] == g0.cells()[g0.pidx(x, y)]);
                assert(false);
            } else {
                lemma_flat_index_injective(w, x, y, x0 as int, y0 as int);
            }
        }
        assert forall|x: int, y: int|
            g0.in_bounds(x, y) && newly_stamped(g0, *img, scan_id, #[trigger] g0.pidx(x, y))
                && !pending(nodes@, x, y) implies neighbors_stamped(
            g0,
            *img,
            scan_id,
            kind,
            x,
            y,
        ) by {
            lemma_flat_index_bounds(w, h, x, y);
            if g0.pidx(x, y) != seed_i {
                assert(img.cells()[g0.pidx(x, y)] == g0.cells()[g0.pidx(x, y)]);
                assert(false);
            } else {
                lemma_flat_index_injective(w, x, y, x0 as int, y0 as int);
                assert(nodes@[0] == (x0, y0));
                assert(pending(nodes@, x, y));
                assert(false);
            }
        }
    }
    while nodes.len() > 0
        invariant
            img.wf(),
            g0.wf(),
            g0.cells().len() <= usize::MAX,
            img.spec_width() == g0.spec_width(),
            img.spec_height() == g0.spec_height(),
            img.cells().len() == g0.cells().len(),
            w == g0.spec_width() as int,
            h == g0.spec_height() as int,
            seed_i == g0.pidx(x0 as int, y0 as int),
            g0.in_bounds(x0 as int, y0 as int),
            kind == class_at(g0, x0 as int, y0 as int),
            tag_at(g0, x0 as int, y0 as int) != scan_id,
            newly_stamped(g0, *img, scan_id, seed_i),
            forall|i: int|
                0 <= i < g0.cells().len() ==> #[trigger] scan_cell_ok(
                    g0,
                    *img,
                    set_class,
                    scan_id,
                    kind,
                    i,
                ),
            forall|k: int|
                0 <= k < nodes@.len() ==> {
                    let nd = #[trigger] nodes@[k];
                    &&& g0.in_bounds(nd.0 as int, nd.1 as int)
                    &&& newly_stamped(g0, *img, scan_id, g0.pidx(nd.0 as int, nd.1 as int))
                },
            forall|x: int, y: int|
                g0.in_bounds(x, y) && newly_stamped(g0, *img, scan_id, #[trigger] g0.pidx(x, y))
                    ==> fill_reachable(
                    g0.cells(),
                    w,
                    h,
                    kind,
                    scan_id,
                    x0 as int,
                    y0 as int,
                    x,
                    y,
                ),
            forall|x: int, y: int|
                g0.in_bounds(x, y) && newly_stamped(g0, *img, scan_id, #[trigger] g0.pidx(x, y))
                    && !pending(nodes@, x, y) ==> neighbors_stamped(
                    g0,
                    *img,
                    scan_id,
                    kind,
                    x,
                    y,
                ),
            count == stamped_set(g0, *img, scan_id).len(),
            stamped_set(g0, *img, scan_id).finite(),
            count <= g0.cells().len(),
        decreases g0.cells().len() - count + nodes@.len(),
    {
        let ghost prev_nodes = nodes@;
        let node = nodes.pop().unwrap();
        let xi = node.0;
        let yi = node.1;
        proof {
            assert(prev_nodes[prev_nodes.len() - 1] == node);
            assert(g0.in_bounds(xi as int, yi as int));
            assert(newly_stamped(g0, *img, scan_id, g0.pidx(xi as int, yi as int)));
            assert(forall|k: int| 0 <= k < nodes@.len() ==> nodes@[k] == prev_nodes[k]);
        }
        let ghost m0 = g0.cells().len() - count + nodes@.len();
        let nbrs = get_sorrunding_indecies(xi, yi);
        let mut j: usize = 0;
        while j < nbrs.len()
            invariant
                img.wf(),
                g0.wf(),
                g0.cells().len() <= usize::MAX,
                img.spec_width() == g0.spec_width(),
                img.spec_height() == g0.spec_height(),
                img.cells().len() == g0.cells().len(),
                w == g0.spec_width() as int,
                h == g0.spec_height() as int,
                seed_i == g0.pidx(x0 as int, y0 as int),
                g0.in_bounds(x0 as int, y0 as int),
                kind == class_at(g0, x0 as int, y0 as int),
                tag_at(g0, x0 as int, y0 as int) != scan_id,
                newly_stamped(g0, *img, scan_id, seed_i),
                g0.in_bounds(xi as int, yi as int),
                newly_stamped(g0, *img, scan_id, g0.pidx(xi as int, yi as int)),
                j <= nbrs@.len(),
                forall|k: int|
                    0 <= k < nbrs@.len() ==> adjacent(
                        xi as int,
                        yi as int,
                        (#[trigger] nbrs@[k]).0 as int,
                        nbrs@[k].1 as int,
                    ),
                forall|x: usize, y: usize|
                    adjacent(xi as int, yi as int, x as int, y as int) ==> nbrs@.contains(
                        (x, y),
                    ),
                forall|i: int|
                    0 <= i < g0.cells().len() ==> #[trigger] scan_cell_ok(
                        g0,
                        *img,
                        set_class,
                        scan_id,
                        kind,
                        i,
                    ),
                forall|k: int|
                    0 <= k < nodes@.len() ==> {
                        let nd = #[trigger] nodes@[k];
                        &&& g0.in_bounds(nd.0 as int, nd.1 as int)
                        &&& newly_stamped(g0, *img, scan_id, g0.pidx(nd.0 as int, nd.1 as int))
                    },
                forall|x: int, y: int|
                    g0.in_bounds(x, y) && newly_stamped(
                        g0,
                        *img,
                        scan_id,
                        #[trigger] g0.pidx(x, y),
                    ) ==> fill_reachable(
                        g0.cells(),
                        w,
                        h,
                        kind,
                        scan_id,
                        x0 as int,
                        y0 as int,
                        x,
                        y,
                    ),
                forall|x: int, y: int|
                    g0.in_bounds(x, y) && newly_stamped(
                        g0,
                        *img,
                        scan_id,
                        #[trigger] g0.pidx(x, y),
                    ) && !pending(nodes@, x, y) && !(x == xi as int && y == yi as int)
                        ==> neighbors_stamped(g0, *img, scan_id, kind, x, y),
                forall|k: int|
                    0 <= k < j ==> {
                        let nb = #[trigger] nbrs@[k];
                        fill_open(g0.cells(), w, h, kind, scan_id, nb.0 as int, nb.1 as int)
                            ==> newly_stamped(
                            g0,
                            *img,
                            scan_id,
                            g0.pidx(nb.0 as int, nb.1 as int),
                        )
                    },
                count == stamped_set(g0, *img, scan_id).len(),
                stamped_set(g0, *img, scan_id).finite(),
                count <= g0.cells().len(),
                g0.cells().len() - count + nodes@.len() == m0,
            decreases nbrs@.len() - j,
        {
            let nb = nbrs[j];
            let x = nb.0;
            let y = nb.1;
            let checked = match img.at_checked(x, y) {
                Some(r) => Some(*r),
                None => None,
            };
            if let Some(px) = checked {
                if px.is_part == kind && px.scan_id != scan_id {
                    proof {
                        lemma_flat_index_bounds(w, h, x as int, y as int);
                        assert(scan_cell_ok(
                            g0,
                            *img,
                            set_class,
                            scan_id,
                            kind,
                            g0.pidx(x as int, y as int),
                        ));
                        assert(img.cells()[g0.pidx(x as int, y as int)] == g0.cells()[g0.pidx(
                            x as int,
                            y as int,
                        )]);
                        assert(fill_open(g0.cells(), w, h, kind, scan_id, x as int, y as int));
                    }
                    let ghost pre = *img;
                    let ghost pre_nodes = nodes@;
                    {
                        let c = img.at_mut(x, y);
                        c.scan_id = scan_id;
                        match set_class {
                            Some(v) => {
                                c.is_part = v;
                            },
                            None => {},
                        }
                    }
                    nodes.push((x, y));
                    proof {
                        let xn = x as int;
                        let yn = y as int;
                        let ji = g0.pidx(xn, yn);
                        // the seed and this node already carry the tag, the
                        // stamped cell did not, so they are different cells
                        lemma_flat_index_bounds(w, h, x0 as int, y0 as int);
                        lemma_flat_index_bounds(w, h, xi as int, yi as int);
                        let ni = g0.pidx(xi as int, yi as int);
                        assert(pre.cells()[seed_i].scan_id == scan_id);
                        assert(pre.cells()[ni].scan_id == scan_id);
                        assert(ji != seed_i && ji != ni);
                        assert(img.cells()[seed_i] == pre.cells()[seed_i]);
                        assert(img.cells()[ni] == pre.cells()[ni]);
                        // every cell still obeys the scan's frame
                        assert forall|i: int|
                            0 <= i < g0.cells().len() implies #[trigger] scan_cell_ok(
                            g0,
                            *img,
                            set_class,
                            scan_id,
                            kind,
                            i,
                        ) by {
                            if i != ji {
                                assert(img.cells()[i] == pre.cells()[i]);
                                assert(scan_cell_ok(g0, pre, set_class, scan_id, kind, i));
                            }
                        }
                        // stamping is monotone: cells stamped before stay stamped
                        assert forall|i: int|
                            0 <= i < g0.cells().len() && newly_stamped(g0, pre, scan_id, i)
                            implies newly_stamped(g0, *img, scan_id, i) by {
                            if i != ji {
                                assert(img.cells()[i] == pre.cells()[i]);
                            }
                        }
                        // the work stack still holds only stamped cells
                        assert forall|k: int| 0 <= k < nodes@.len() implies {
                            let nd = #[trigger] nodes@[k];
                            &&& g0.in_bounds(nd.0 as int, nd.1 as int)
                            &&& newly_stamped(
                                g0,
                                *img,
                                scan_id,
                                g0.pidx(nd.0 as int, nd.1 as int),
                            )
                        } by {
                            if k < nodes@.len() - 1 {
                                assert(nodes@[k] == pre_nodes[k]);
                                let nd = nodes@[k];
                                lemma_flat_index_bounds(w, h, nd.0 as int, nd.1 as int);
                                assert(newly_stamped(
                                    g0,
                                    pre,
                                    scan_id,
                                    g0.pidx(nd.0 as int, nd.1 as int),
                                ));
                            } else {
                                assert(nodes@[k] == (x, y));
                            }
                        }
                        // the settled neighbors stay settled
                        assert forall|k: int| 0 <= k < j + 1 implies {
                            let nb = #[trigger] nbrs@[k];
                            fill_open(g0.cells(), w, h, kind, scan_id, nb.0 as int, nb.1 as int)
                                ==> newly_stamped(
                                g0,
                                *img,
                                scan_id,
                                g0.pidx(nb.0 as int, nb.1 as int),
                            )
                        } by {
                            let nb = nbrs@[k];
                            if k < j && fill_open(
                                g0.cells(),
                                w,
                                h,
                                kind,
                                scan_id,
                                nb.0 as int,
                                nb.1 as int,
                            ) {
                                lemma_flat_index_bounds(w, h, nb.0 as int, nb.1 as int);
                                assert(newly_stamped(
                                    g0,
                                    pre,
                                    scan_id,
                                    g0.pidx(nb.0 as int, nb.1 as int),
                                ));
                            }
                        }
                        // the new cell lies in the seed's region
                        assert(fill_reachable(
                            g0.cells(),
                            w,
                            h,
                            kind,
                            scan_id,
                            x0 as int,
                            y0 as int,
                            xi as int,
                            yi as int,
                        ));
                        let p = choose|p: Seq<(int, int)>|
                            {
                                &&& #[trigger] fill_path(g0.cells(), w, h, kind, scan_id, p)
                                &&& p.len() >= 1
                                &&& p[0] == (x0 as int, y0 as int)
                                &&& p[p.len() - 1] == (xi as int, yi as int)
                            };
                        assert(adjacent(xi as int, yi as int, xn, yn));
                        lemma_path_extend(g0.cells(), w, h, kind, scan_id, p, xn, yn);
                        let q = p.push((xn, yn));
                        assert(fill_path(g0.cells(), w, h, kind, scan_id, q) && q.len() >= 1 && q[0]
                            == (x0 as int, y0 as int) && q[q.len() - 1] == (xn, yn));
                        assert(fill_reachable(
                            g0.cells(),
                            w,
                            h,
                            kind,
                            scan_id,
                            x0 as int,
                            y0 as int,
                            xn,
                            yn,
                        ));
                        // the stamped set grows by exactly this cell
                        assert(!stamped_set(g0, pre, scan_id).contains(ji));
                        assert(newly_stamped(g0, *img, scan_id, ji));
                        assert(stamped_set(g0, *img, scan_id) =~= stamped_set(
                            g0,
                            pre,
                            scan_id,
                        ).insert(ji));
                        assert(stamped_set(g0, *img, scan_id).len() == count + 1);
                        vstd::set_lib::lemma_int_range(0, g0.cells().len() as int);
                        vstd::set_lib::lemma_len_subset(
                            stamped_set(g0, *img, scan_id),
                            vstd::set_lib::set_int_range(0, g0.cells().len() as int),
                        );
                        // soundness carries over to the grown stamped set
                        assert forall|xq: int, yq: int|
                            g0.in_bounds(xq, yq) && newly_stamped(
                                g0,
                                *img,
                                scan_id,
                                #[trigger] g0.pidx(xq, yq),
                            ) implies fill_reachable(
                            g0.cells(),
                            w,
                            h,
                            kind,
                            scan_id,
                            x0 as int,
                            y0 as int,
                            xq,
                            yq,
                        ) by {
                            lemma_flat_index_bounds(w, h, xq, yq);
                            if g0.pidx(xq, yq) == ji {
                                lemma_flat_index_injective(w, xq, yq, xn, yn);
                            } else {
                                assert(img.cells()[g0.pidx(xq, yq)] == pre.cells()[g0.pidx(
                                    xq,
                                    yq,
                                )]);
                                assert(newly_stamped(g0, pre, scan_id, g0.pidx(xq, yq)));
                            }
                        }
                        // closure carries over: the new cell waits on the stack
                        assert forall|xq: int, yq: int|
                            g0.in_bounds(xq, yq) && newly_stamped(
                                g0,
                                *img,
                                scan_id,
                                #[trigger] g0.pidx(xq, yq),
                            ) && !pending(nodes@, xq, yq) && !(xq == xi as int && yq
                            == yi as int) implies neighbors_stamped(
                            g0,
                            *img,
                            scan_id,
                            kind,
                            xq,
                            yq,
                        ) by {
                            lemma_flat_index_bounds(w, h, xq, yq);
                            if g0.pidx(xq, yq) == ji {
                                lemma_flat_index_injective(w, xq, yq, xn, yn);
                                assert(nodes@[nodes@.len() - 1] == (x, y));
                                assert(pending(nodes@, xq, yq));
                                assert(false);
                            } else {
                                assert(img.cells()[g0.pidx(xq, yq)] == pre.cells()[g0.pidx(
                                    xq,
                                    yq,
                                )]);
                                assert(newly_stamped(g0, pre, scan_id, g0.pidx(xq, yq)));
                                assert(!pending(pre_nodes, xq, yq)) by {
                                    if pending(pre_nodes, xq, yq) {
                                        let k = choose|k: int|
                                            0 <= k < pre_nodes.len() && (#[trigger] pre_nodes[k]).0
                                                == xq && pre_nodes[k].1 == yq;
                                        assert(nodes@[k] == pre_nodes[k]);
                                        assert(pending(nodes@, xq, yq));
                                    }
                                }
                                assert(neighbors_stamped(g0, pre, scan_id, kind, xq, yq));
                                assert forall|a: int, b: int|
                                    adjacent(xq, yq, a, b) && fill_open(
                                        g0.cells(),
                                        w,
                                        h,
                                        kind,
                                        scan_id,
                                        a,
                                        b,
                                    ) implies newly_stamped(g0, *img, scan_id, g0.pidx(a, b)) by {
                                    lemma_flat_index_bounds(w, h, a, b);
                                    assert(newly_stamped(g0, pre, scan_id, g0.pidx(a, b)));
                                    if g0.pidx(a, b) != ji {
                                        assert(img.cells()[g0.pidx(a, b)] == pre.cells()[g0.pidx(
                                            a,
                                            b,
                                        )]);
                                    }
                                }
                            }
                        }
                        // the new cell is stamped, so this neighbor is settled
                        assert(newly_stamped(
                            g0,
                            *img,
                            scan_id,
                            g0.pidx(
                                (nbrs@[j as int]).0 as int,
                                (nbrs@[j as int]).1 as int,
                            ),
                        ));
                    }
                    count = count + 1;
                } else {
                    proof {
                        let a = (nbrs@[j as int]).0 as int;
                        let b = (nbrs@[j as int]).1 as int;
                        if fill_open(g0.cells(), w, h, kind, scan_id, a, b) {
                            lemma_flat_index_bounds(w, h, a, b);
                            let i = g0.pidx(a, b);
                            assert(scan_cell_ok(g0, *img, set_class, scan_id, kind, i));
                            assert(img.cells()[i] == px);
                            assert(newly_stamped(g0, *img, scan_id, i));
                        }
                    }
                }
            } else {
                proof {
                    let a = (nbrs@[j as int]).0 as int;
                    let b = (nbrs@[j as int]).1 as int;
                    assert(!fill_open(g0.cells(), w, h, kind, scan_id, a, b));
                }
            }
            j = j + 1;
        }
        proof {
            // this node's whole neighborhood is settled now
            assert forall|a: int, b: int|
                adjacent(xi as int, yi as int, a, b) && fill_open(
                    g0.cells(),
                    w,
                    h,
                    kind,
                    scan_id,
                    a,
                    b,
                ) implies newly_stamped(g0, *img, scan_id, g0.pidx(a, b)) by {
                assert(0 <= a < w && 0 <= b < h);
                let au = a as usize;
                let bu = b as usize;
                assert(adjacent(xi as int, yi as int, au as int, bu as int));
                assert(nbrs@.contains((au, bu)));
                let k = nbrs@.index_of((au, bu));
                assert(0 <= k < nbrs@.len() && nbrs@[k] == (au, bu));
                assert(fill_open(
                    g0.cells(),
                    w,
                    h,
                    kind,
                    scan_id,
                    (nbrs@[k]).0 as int,
                    (nbrs@[k]).1 as int,
                ));
                assert(newly_stamped(
                    g0,
                    *img,
                    scan_id,
                    g0.pidx((nbrs@[k]).0 as int, (nbrs@[k]).1 as int),
                ));
                assert((nbrs@[k]).0 as int == a && (nbrs@[k]).1 as int == b);
            }
            assert(neighbors_stamped(g0, *img, scan_id, kind, xi as int, yi as int));
            // with it, every settled cell remains settled
            assert forall|x: int, y: int|
                g0.in_bounds(x, y) && newly_stamped(g0, *img, scan_id, #[trigger] g0.pidx(x, y))
                    && !pending(nodes@, x, y) implies neighbors_stamped(
                g0,
                *img,
                scan_id,
                kind,
                x,
                y,
            ) by {
                if !(x == xi as int && y == yi as int) {
                    assert(neighbors_stamped(g0, *img, scan_id, kind, x, y));
                }
            }
        }
    }
    proof {
        // the seed was stamped, so at least one cell was counted
        assert(stamped_set(g0, *img, scan_id).contains(seed_i));
        vstd::set::axiom_set_contains_len(stamped_set(g0, *img, scan_id), seed_i);
        // the stack has drained: every reachable cell has been stamped
        assert forall|x: int, y: int|
            g0.in_bounds(x, y) && #[trigger] fill_reachable(
                g0.cells(),
                w,
                h,
                kind,
                scan_id,
                x0 as int,
                y0 as int,
                x,
                y,
            ) implies newly_stamped(g0, *img, scan_id, g0.pidx(x, y)) by {
            let p = choose|p: Seq<(int, int)>|
                {
                    &&& #[trigger] fill_path(g0.cells(), w, h, kind, scan_id, p)
                    &&& p.len() >= 1
                    &&& p[0] == (x0 as int, y0 as int)
                    &&& p[p.len() - 1] == (x, y)
                };
            assert forall|xq: int, yq: int|
                g0.in_bounds(xq, yq) && newly_stamped(
                    g0,
                    *img,
                    scan_id,
                    #[trigger] g0.pidx(xq, yq),
                ) implies neighbors_stamped(g0, *img, scan_id, kind, xq, yq) by {
                assert(!pending(nodes@, xq, yq));
            }
            lemma_path_stamped(g0, *img, scan_id, kind, p);
        }
    }
    count
}

/// Measures the size of the seed's region without changing any pixel class:
/// a flood-fill scan with no visitor. The pixels of the region come out
/// stamped with `scan_id`.
pub fn count_adjacent(img: &mut Image, x0: usize, y0: usize, scan_id: usize) -> (count: usize)
    requires
        old(img).wf(),
        old(img).in_bounds(x0 as int, y0 as int),
    ensures
        final (img).wf(),
        final (img).spec_width() == old(img).spec_width(),
        final (img).spec_height() == old(img).spec_height(),
        forall|i: int|
            0 <= i < old(img).cells().len() ==> #[trigger] scan_cell_ok(
                *old(img),
                *final (img),
                None,
                scan_id,
                class_at(*old(img), x0 as int, y0 as int),
                i,
            ),
        count == stamped_set(*old(img), *final (img), scan_id).len(),
        tag_at(*old(img), x0 as int, y0 as int) == scan_id ==> final (img).cells() == old(
            img,
        ).cells() && count == 0,
        tag_at(*old(img), x0 as int, y0 as int) != scan_id ==> {
            &&& newly_stamped(
                *old(img),
                *final (img),
                scan_id,
                old(img).pidx(x0 as int, y0 as int),
            )
            &&& count >= 1
            &&& forall|x: int, y: int|
                old(img).in_bounds(x, y) ==> (newly_stamped(
                    *old(img),
                    *final (img),
                    scan_id,
                    old(img).pidx(x, y),
                ) <==> #[trigger] fill_reachable(
                    old(img).cells(),
                    old(img).spec_width() as int,
                    old(img).spec_height() as int,
                    class_at(*old(img), x0 as int, y0 as int),
                    scan_id,
                    x0 as int,
                    y0 as int,
                    x,
                    y,
                ))
        },
{
    for_all_of_kind_adjacent(img, x0, y0, None, scan_id)
}

/// The visitor a hole-closing scan hands to the flood fill: write the
/// opposite of the seed's class into every visited pixel.
pub open spec fn hole_visitor(img: Image, x0: int, y0: int) -> Option<bool> {
    Some(!class_at(img, x0, y0))
}

/// Flips the class of the seed's whole region: a flood-fill scan whose
/// visitor writes the opposite of the seed's class into every visited
/// pixel. Used to erase small regions ("holes") into their surroundings.
pub fn close_hole(img: &mut Image, x0: usize, y0: usize, scan_id: usize) -> (count: usize)
    requires
        old(img).wf(),
        old(img).in_bounds(x0 as int, y0 as int),
    ensures
        final (img).wf(),
        final (img).spec_width() == old(img).spec_width(),
        final (img).spec_height() == old(img).spec_height(),
        forall|i: int|
            0 <= i < old(img).cells().len() ==> #[trigger] scan_cell_ok(
                *old(img),
                *final (img),
                hole_visitor(*old(img), x0 as int, y0 as int),
                scan_id,
                class_at(*old(img), x0 as int, y0 as int),
                i,
            ),
        count == stamped_set(*old(img), *final (img), scan_id).len(),
        tag_at(*old(img), x0 as int, y0 as int) == scan_id ==> final (img).cells() == old(
            img,
        ).cells() && count == 0,
        tag_at(*old(img), x0 as int, y0 as int) != scan_id ==> {
            &&& newly_stamped(
                *old(img),
                *final (img),
                scan_id,
                old(img).pidx(x0 as int, y0 as int),
            )
            &&& count >= 1
            &&& forall|x: int, y: int|
                old(img).in_bounds(x, y) ==> (newly_stamped(
                    *old(img),
                    *final (img),
                    scan_id,
                    old(img).pidx(x, y),
                ) <==> #[trigger] fill_reachable(
                    old(img).cells(),
                    old(img).spec_width() as int,
                    old(img).spec_height() as int,
                    class_at(*old(img), x0 as int, y0 as int),
                    scan_id,
                    x0 as int,
                    y0 as int,
                    x,
                    y,
                ))
        },
{
    let ghost g0 = *img;
    let kind = !img.at(x0, y0).is_part;
    let count = for_all_of_kind_adjacent(img, x0, y0, Some(kind), scan_id);
    proof {
        let kind0 = class_at(g0, x0 as int, y0 as int);
        assert(hole_visitor(g0, x0 as int, y0 as int) == Some(kind));
        assert forall|i: int|
            0 <= i < g0.cells().len() implies #[trigger] scan_cell_ok(
            g0,
            *img,
            hole_visitor(g0, x0 as int, y0 as int),
            scan_id,
            kind0,
            i,
        ) by {
            assert(scan_cell_ok(g0, *img, Some(kind), scan_id, kind0, i));
        }
    }
    count
}

} // verus!
