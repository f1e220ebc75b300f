//! The centroid accumulator: collects the coordinates of all pixels
//! classified `part` and reports the floor of their mean — the detected
//! object's location.

use vstd::prelude::*;
use crate::grid::{Image, Pixel};

verus! {

/// A 2-D point; for grid coordinates the components are `usize`.
#[derive(Clone, Copy, PartialEq, Eq, Structural, Debug)]
pub struct Point<T>(pub T, pub T);

/// The number of `part` pixels among the first `n` cells.
pub open spec fn part_count_upto(cells: Seq<Pixel>, n: int) -> int
    decreases n,
{
    if n <= 0 {
        0
    } else {
        part_count_upto(cells, n - 1) + if cells[n - 1].is_part {
            1int
        } else {
            0
        }
    }
}

/// The number of `part` pixels of the grid.
pub open spec fn part_count(cells: Seq<Pixel>) -> int {
    part_count_upto(cells, cells.len() as int)
}

/// The sum of the x coordinates of the `part` pixels among the first `n`
/// cells of a `w`-wide grid.
pub open spec fn part_sum_x_upto(cells: Seq<Pixel>, w: int, n: int) -> int
    decreases n,
{
    if n <= 0 {
        0
    } else {
        part_sum_x_upto(cells, w, n - 1) + if cells[n - 1].is_part {
            (n - 1) % w
        } else {
            0
        }
    }
}

/// The sum of the y coordinates of the `part` pixels among the first `n`
/// cells of a `w`-wide grid.
pub open spec fn part_sum_y_upto(cells: Seq<Pixel>, w: int, n: int) -> int
    decreases n,
{
    if n <= 0 {
        0
    } else {
        part_sum_y_upto(cells, w, n - 1) + if cells[n - 1].is_part {
            (n - 1) / w
        } else {
            0
        }
    }
}

/// The coordinates of the `part` pixels among the first `n` cells of a
/// `w`-wide grid, in row-major order.
pub open spec fn part_points_upto(cells: Seq<Pixel>, w: int, n: int) -> Seq<Point<usize>>
    decreases n,
{
    if n <= 0 {
        Seq::empty()
    } else {
        let rest = part_points_upto(cells, w, n - 1);
        if cells[n - 1].is_part {
            rest.push(Point((((n - 1) % w) as usize), (((n - 1) / w) as usize)))
        } else {
            rest
        }
    }
}

/// The sum of the first components of a point sequence.
pub open spec fn sum_x(s: Seq<Point<usize>>) -> int
    decreases s.len(),
{
    if s.len() == 0 {
        0
    } else {
        sum_x(s.drop_last()) + s.last().0
    }
}

/// The sum of the second components of a point sequence.
pub open spec fn sum_y(s: Seq<Point<usize>>) -> int
    decreases s.len(),
{
    if s.len() == 0 {
        0
    } else {
        sum_y(s.drop_last()) + s.last().1
    }
}

/// The number of `part` pixels and the number of background pixels always
/// partition the grid: a pass that only flips classes keeps their sum, the
/// total pixel count.
pub proof fn lemma_class_counts_partition(cells: Seq<Pixel>, n: int)
    requires
        0 <= n <= cells.len(),
    ensures
        part_count_upto(cells, n) + background_count_upto(cells, n) == n,
        0 <= part_count_upto(cells, n) <= n,
    decreases n,
{
    if n > 0 {
        lemma_class_counts_partition(cells, n - 1);
    }
}

/// A grid prefix with no `part` pixel contributes nothing to the part
/// count, so the centroid of an all-background grid does not exist.
pub proof fn lemma_all_background_zero_count(cells: Seq<Pixel>, n: int)
    requires
        forall|i: int| 0 <= i < n ==> !(#[trigger] cells[i]).is_part,
    ensures
        part_count_upto(cells, n) == 0,
    decreases n,
{
    if n > 0 {
        lemma_all_background_zero_count(cells, n - 1);
    }
}

/// The number of background pixels among the first `n` cells.
pub open spec fn background_count_upto(cells: Seq<Pixel>, n: int) -> int
    decreases n,
{
    if n <= 0 {
        0
    } else {
        background_count_upto(cells, n - 1) + if cells[n - 1].is_part {
            0int
        } else {
            1
        }
    }
}

/// The collected part points carry exactly the part count and the two
/// coordinate sums of the grid prefix they were read from.
pub proof fn lemma_part_points_aggregates(cells: Seq<Pixel>, w: int, n: int)
    requires
        0 <= n <= usize::MAX,
        n == 0 || 1 <= w <= usize::MAX,
    ensures
        part_points_upto(cells, w, n).len() == part_count_upto(cells, n),
        sum_x(part_points_upto(cells, w, n)) == part_sum_x_upto(cells, w, n),
        sum_y(part_points_upto(cells, w, n)) == part_sum_y_upto(cells, w, n),
    decreases n,
{
    if n > 0 {
        lemma_part_points_aggregates(cells, w, n - 1);
        let rest = part_points_upto(cells, w, n - 1);
        if cells[n - 1].is_part {
            let full = rest.push(Point((((n - 1) % w) as usize), (((n - 1) / w) as usize)));
            assert(full.drop_last() =~= rest);
            vstd::arithmetic::div_mod::lemma_mod_bound(n - 1, w);
            vstd::arithmetic::div_mod::lemma_div_pos_is_pos(n - 1, w);
            vstd::arithmetic::div_mod::lemma_div_nonincreasing(n - 1, w);
        }
    }
}

/// Coordinate sums of a point list stay below the list length times the
/// largest representable coordinate.
pub proof fn lemma_sum_bounds(s: Seq<Point<usize>>)
    ensures
        0 <= sum_x(s) <= s.len() * usize::MAX,
        0 <= sum_y(s) <= s.len() * usize::MAX,
    decreases s.len(),
{
    if s.len() > 0 {
        lemma_sum_bounds(s.drop_last());
        assert((s.len() - 1) * usize::MAX + usize::MAX == s.len() * usize::MAX) by (nonlinear_arith);
    }
}

/// A sum of `n` values, each at most `m`, divided by `n` is at most `m`.
proof fn lemma_div_bound(a: int, n: int, m: int)
    requires
        0 <= a,
        a <= n * m,
        1 <= n,
        0 <= m,
    ensures
        a / n <= m,
{
    vstd::arithmetic::div_mod::lemma_fundamental_div_mod(a, n);
    vstd::arithmetic::div_mod::lemma_mod_bound(a, n);
    vstd::arithmetic::div_mod::lemma_div_pos_is_pos(a, n);
    if a / n > m {
        vstd::arithmetic::mul::lemma_mul_inequality(m + 1, a / n, n);
        assert((m + 1) * n <= (a / n) * n);
        assert(n * (a / n) == (a / n) * n) by (nonlinear_arith);
        assert(n * m + n == (m + 1) * n) by (nonlinear_arith);
        assert(false);
    }
}

/// Removing one point removes exactly its coordinates from the sums.
proof fn lemma_sum_remove(s: Seq<Point<usize>>, i: int)
    requires
        0 <= i < s.len(),
    ensures
        sum_x(s.remove(i)) == sum_x(s) - s[i].0,
        sum_y(s.remove(i)) == sum_y(s) - s[i].1,
    decreases s.len(),
{
    if i == s.len() - 1 {
        assert(s.remove(i) =~= s.drop_last());
    } else {
        let t = s.drop_last();
        lemma_sum_remove(t, i);
        assert(s.remove(i).drop_last() =~= t.remove(i));
        assert(s.remove(i).last() == s.last());
        assert(t[i] == s[i]);
    }
}

/// The coordinate sums do not depend on the order of the points: two
/// listings of the same points carry the same sums, so the mean — and with
/// it the centroid of a set of pixels — is independent of listing order.
pub proof fn lemma_sum_permutation(s1: Seq<Point<usize>>, s2: Seq<Point<usize>>)
    requires
        s1.to_multiset() == s2.to_multiset(),
    ensures
        sum_x(s1) == sum_x(s2),
        sum_y(s1) == sum_y(s2),
    decreases s1.len(),
{
    broadcast use vstd::multiset::group_multiset_axioms;

    s1.to_multiset_ensures();
    s2.to_multiset_ensures();
    if s1.len() == 0 {
        assert(s2.len() == 0);
    } else {
        let e = s1.last();
        let t1 = s1.drop_last();
        assert(s1 =~= t1.push(e));
        t1.to_multiset_ensures();
        assert(s1.to_multiset() =~= t1.to_multiset().insert(e));
        assert(s1[s1.len() - 1] == e);
        assert(s1.contains(e));
        assert(s2.to_multiset().count(e) > 0);
        assert(s2.contains(e));
        let j = choose|j: int| 0 <= j < s2.len() && s2[j] == e;
        let t2 = s2.remove(j);
        assert(t2.to_multiset() =~= s2.to_multiset().remove(e));
        assert forall|a: Point<usize>| t1.to_multiset().count(a) == t2.to_multiset().count(
            a,
        ) by {
            assert(s1.to_multiset().count(a) == t1.to_multiset().insert(e).count(a));
            assert(t2.to_multiset().count(a) == s2.to_multiset().remove(e).count(a));
        }
        assert(t1.to_multiset() =~= t2.to_multiset());
        lemma_sum_permutation(t1, t2);
        lemma_sum_remove(s2, j);
    }
}

/// The smaller of two integers.
spec fn imin(a: int, b: int) -> int {
    if a <= b {
        a
    } else {
        b
    }
}

/// The number of integers from `a` (inclusive) to `b` (exclusive).
spec fn range_count(a: int, b: int) -> int {
    if b <= a {
        0
    } else {
        b - a
    }
}

/// The sum of the integers from `a` (inclusive) to `b` (exclusive).
spec fn series(a: int, b: int) -> int
    decreases b - a,
{
    if b <= a {
        0
    } else {
        series(a, b - 1) + (b - 1)
    }
}

/// The closed form of the arithmetic series.
proof fn lemma_series_value(a: int, b: int)
    requires
        a <= b,
    ensures
        2 * series(a, b) == (a + b - 1) * (b - a),
    decreases b - a,
{
    if b > a {
        lemma_series_value(a, b - 1);
        assert(series(a, b) == series(a, b - 1) + (b - 1));
        assert(2 * series(a, b) == (a + b - 1) * (b - a)) by (nonlinear_arith)
            requires
                series(a, b) == series(a, b - 1) + (b - 1),
                2 * series(a, b - 1) == (a + (b - 1) - 1) * ((b - 1) - a),
        ;
    } else {
        assert(series(a, b) == 0);
        assert(2 * series(a, b) == (a + b - 1) * (b - a)) by (nonlinear_arith)
            requires
                a == b,
                series(a, b) == 0,
        ;
    }
}

/// Exactly the cells of the rectangle `[x0, x1] × [y0, y1]` are `part`.
pub open spec fn rect_classified(
    cells: Seq<Pixel>,
    w: int,
    h: int,
    x0: int,
    x1: int,
    y0: int,
    y1: int,
) -> bool {
    forall|x: int, y: int|
        0 <= x < w && 0 <= y < h ==> ((#[trigger] cells[y * w + x]).is_part <==> (x0 <= x <= x1
            && y0 <= y <= y1))
}

/// The aggregates of one row prefix of a rectangle-classified grid.
proof fn lemma_rect_row(
    cells: Seq<Pixel>,
    w: int,
    h: int,
    x0: int,
    x1: int,
    y0: int,
    y1: int,
    y: int,
    x: int,
)
    requires
        w >= 1,
        h >= 1,
        cells.len() == w * h,
        0 <= x0 <= x1 < w,
        0 <= y0 <= y1 < h,
        rect_classified(cells, w, h, x0, x1, y0, y1),
        0 <= y < h,
        0 <= x <= w,
    ensures
        part_count_upto(cells, y * w + x) == part_count_upto(cells, y * w) + if y0 <= y <= y1 {
            range_count(x0, imin(x, x1 + 1))
        } else {
            0int
        },
        part_sum_x_upto(cells, w, y * w + x) == part_sum_x_upto(cells, w, y * w) + if y0 <= y
            <= y1 {
            series(x0, imin(x, x1 + 1))
        } else {
            0int
        },
        part_sum_y_upto(cells, w, y * w + x) == part_sum_y_upto(cells, w, y * w) + if y0 <= y
            <= y1 {
            y * range_count(x0, imin(x, x1 + 1))
        } else {
            0int
        },
    decreases x,
{
    if x > 0 {
        lemma_rect_row(cells, w, h, x0, x1, y0, y1, y, x - 1);
        let n = y * w + x;
        crate::grid::lemma_flat_index_bounds(w, h, x - 1, y);
        vstd::arithmetic::div_mod::lemma_fundamental_div_mod_converse(n - 1, w, y, x - 1);
        assert(cells[y * w + (x - 1)].is_part <==> (x0 <= x - 1 <= x1 && y0 <= y <= y1));
        assert(y * w + (x - 1) == n - 1);
        let rc0 = range_count(x0, imin(x - 1, x1 + 1));
        let rc1 = range_count(x0, imin(x, x1 + 1));
        if x0 <= x - 1 <= x1 {
            assert(rc1 == rc0 + 1);
            assert(series(x0, imin(x, x1 + 1)) == series(x0, imin(x - 1, x1 + 1)) + (x - 1));
            assert(y * rc1 == y * rc0 + y) by (nonlinear_arith)
                requires
                    rc1 == rc0 + 1,
            ;
        } else {
            assert(rc1 == rc0);
            assert(imin(x, x1 + 1) == imin(x - 1, x1 + 1) || imin(x, x1 + 1) <= x0);
            assert(series(x0, imin(x, x1 + 1)) == series(x0, imin(x - 1, x1 + 1)));
        }
    }
}

/// The aggregates of the first `y` rows of a rectangle-classified grid.
proof fn lemma_rect_rows(
    cells: Seq<Pixel>,
    w: int,
    h: int,
    x0: int,
    x1: int,
    y0: int,
    y1: int,
    y: int,
)
    requires
        w >= 1,
        h >= 1,
        cells.len() == w * h,
        0 <= x0 <= x1 < w,
        0 <= y0 <= y1 < h,
        rect_classified(cells, w, h, x0, x1, y0, y1),
        0 <= y <= h,
    ensures
        part_count_upto(cells, y * w) == range_count(y0, imin(y, y1 + 1)) * range_count(
            x0,
            x1 + 1,
        ),
        part_sum_x_upto(cells, w, y * w) == range_count(y0, imin(y, y1 + 1)) * series(x0, x1 + 1),
        part_sum_y_upto(cells, w, y * w) == series(y0, imin(y, y1 + 1)) * range_count(x0, x1 + 1),
    decreases y,
{
    let wd = range_count(x0, x1 + 1);
    let sx = series(x0, x1 + 1);
    if y > 0 {
        lemma_rect_rows(cells, w, h, x0, x1, y0, y1, y - 1);
        lemma_rect_row(cells, w, h, x0, x1, y0, y1, y - 1, w);
        assert((y - 1) * w + w == y * w) by (nonlinear_arith);
        assert(imin(w, x1 + 1) == x1 + 1);
        let r0 = range_count(y0, imin(y - 1, y1 + 1));
        let r1 = range_count(y0, imin(y, y1 + 1));
        let sy0 = series(y0, imin(y - 1, y1 + 1));
        let sy1 = series(y0, imin(y, y1 + 1));
        if y0 <= y - 1 <= y1 {
            assert(r1 == r0 + 1);
            assert(sy1 == sy0 + (y - 1));
            assert(r1 * wd == r0 * wd + wd) by (nonlinear_arith)
                requires
                    r1 == r0 + 1,
            ;
            assert(r1 * sx == r0 * sx + sx) by (nonlinear_arith)
                requires
                    r1 == r0 + 1,
            ;
            assert(sy1 * wd == sy0 * wd + (y - 1) * wd) by (nonlinear_arith)
                requires
                    sy1 == sy0 + (y - 1),
            ;
        } else {
            assert(r1 == r0);
            assert(imin(y, y1 + 1) == imin(y - 1, y1 + 1) || imin(y, y1 + 1) <= y0);
            assert(sy1 == sy0);
        }
    } else {
        assert(imin(0, y1 + 1) <= y0);
    }
}

/// Integer division by a scaled denominator after summing a scaled series:
/// `r` copies of a row sum `s` with `2 * s == total * k`, divided by `r`
/// rows of `k` cells each, give the midpoint `total / 2`.
proof fn lemma_centroid_div(s: int, total: int, k: int, r: int)
    requires
        k >= 1,
        r >= 1,
        total >= 0,
        s >= 0,
        2 * s == total * k,
    ensures
        (r * s) / (r * k) == total / 2,
{
    vstd::arithmetic::div_mod::lemma_div_denominator(r * s, r, k);
    vstd::arithmetic::div_mod::lemma_div_multiples_vanish(s, r);
    assert((r * s) / (r * k) == s / k);
    vstd::arithmetic::div_mod::lemma_fundamental_div_mod(total, 2);
    let q = total / 2;
    if total % 2 == 0 {
        assert(total == 2 * q);
        assert(s == k * q) by (nonlinear_arith)
            requires
                2 * s == total * k,
                total == 2 * q,
        ;
        vstd::arithmetic::div_mod::lemma_div_multiples_vanish(q, k);
    } else {
        assert(total == 2 * q + 1);
        vstd::arithmetic::div_mod::lemma_fundamental_div_mod(k, 2);
        vstd::arithmetic::div_mod::lemma_mod_bound(k, 2);
        let kh = k / 2;
        let m = k % 2;
        assert(k == 2 * kh + m);
        if m == 1 {
            assert((2 * q + 1) * (2 * kh + 1) == 2 * (2 * q * kh + q + kh) + 1)
                by (nonlinear_arith);
            assert(false);
        }
        assert(m == 0);
        assert(kh >= 1);
        assert(s == q * k + kh) by (nonlinear_arith)
            requires
                2 * s == (2 * q + 1) * (2 * kh),
                k == 2 * kh,
        ;
        vstd::arithmetic::div_mod::lemma_fundamental_div_mod_converse(s, k, q, kh);
    }
}

/// On a grid whose `part` pixels form exactly the rectangle
/// `[x0, x1] × [y0, y1]`, the centroid — the rounded-down mean of the part
/// coordinates, as `centroid` computes it — is the rectangle's middle,
/// rounded down coordinate-wise.
pub proof fn lemma_rectangle_centroid(
    cells: Seq<Pixel>,
    w: int,
    h: int,
    x0: int,
    x1: int,
    y0: int,
    y1: int,
)
    requires
        w >= 1,
        h >= 1,
        cells.len() == w * h,
        0 <= x0 <= x1 < w,
        0 <= y0 <= y1 < h,
        rect_classified(cells, w, h, x0, x1, y0, y1),
    ensures
        part_count(cells) == (x1 - x0 + 1) * (y1 - y0 + 1),
        part_sum_x_upto(cells, w, cells.len() as int) / part_count(cells) == (x0 + x1) / 2,
        part_sum_y_upto(cells, w, cells.len() as int) / part_count(cells) == (y0 + y1) / 2,
{
    lemma_rect_rows(cells, w, h, x0, x1, y0, y1, h);
    assert(h * w == w * h) by (nonlinear_arith);
    let wd = range_count(x0, x1 + 1);
    let r = range_count(y0, imin(h, y1 + 1));
    let sx = series(x0, x1 + 1);
    let sy = series(y0, imin(h, y1 + 1));
    assert(imin(h, y1 + 1) == y1 + 1);
    assert(wd == x1 - x0 + 1 && r == y1 - y0 + 1);
    assert(part_count(cells) == r * wd);
    assert(r * wd == (x1 - x0 + 1) * (y1 - y0 + 1)) by (nonlinear_arith)
        requires
            wd == x1 - x0 + 1,
            r == y1 - y0 + 1,
    ;
    lemma_series_value(x0, x1 + 1);
    assert(2 * sx == (x0 + x1) * wd);
    assert(sx >= 0) by (nonlinear_arith)
        requires
            2 * sx == (x0 + x1) * wd,
            x0 + x1 >= 0,
            wd >= 1,
    ;
    lemma_centroid_div(sx, x0 + x1, wd, r);
    assert(part_sum_x_upto(cells, w, cells.len() as int) == r * sx);
    assert(part_count(cells) == r * wd);
    lemma_series_value(y0, y1 + 1);
    assert(2 * sy == (y0 + y1) * r);
    assert(sy >= 0) by (nonlinear_arith)
        requires
            2 * sy == (y0 + y1) * r,
            y0 + y1 >= 0,
            r >= 1,
    ;
    lemma_centroid_div(sy, y0 + y1, r, wd);
    assert(part_sum_y_upto(cells, w, cells.len() as int) == sy * wd);
    assert(sy * wd == wd * sy) by (nonlinear_arith);
    assert(r * wd == wd * r) by (nonlinear_arith);
}

/// The mean of a non-empty list of points, coordinate-wise, rounded down
/// (integer division). Yields nothing for an empty list.
pub fn average(itms: &[Point<usize>]) -> (r: Option<Point<usize>>)
    ensures
        match r {
            Some(p) => {
                &&& itms@.len() > 0
                &&& p.0 == sum_x(itms@) / (itms@.len() as int)
                &&& p.1 == sum_y(itms@) / (itms@.len() as int)
            },
            None => itms@.len() == 0,
        },
{
    let n = itms.len();
    if n == 0 {
        return None;
    }
    let mut sx: u128 = 0;
    let mut sy: u128 = 0;
    let mut i: usize = 0;
    proof {
        assert(itms@.subrange(0, 0) =~= Seq::<Point<usize>>::empty());
    }
    while i < n
        invariant
            i <= n,
            n == itms@.len(),
            itms@.len() <= usize::MAX,
            sx == sum_x(itms@.subrange(0, i as int)),
            sy == sum_y(itms@.subrange(0, i as int)),
            sx <= (i as int) * usize::MAX,
            sy <= (i as int) * usize::MAX,
        decreases n - i,
    {
        let p = itms[i];
        proof {
            let pre = itms@.subrange(0, i as int);
            let post = itms@.subrange(0, i as int + 1);
            assert(post.drop_last() =~= pre);
            assert(post.last() == itms@[i as int]);
            lemma_sum_bounds(pre);
            assert((i as int) * usize::MAX + usize::MAX == (i as int + 1) * usize::MAX)
                by (nonlinear_arith);
            assert((i as int + 1) * usize::MAX <= (n as int) * usize::MAX) by (nonlinear_arith)
                requires
                    i as int + 1 <= n as int,
            ;
            assert((n as int) * usize::MAX < u128::MAX) by (nonlinear_arith)
                requires
                    n as int <= usize::MAX,
            ;
        }
        sx = sx + (p.0 as u128);
        sy = sy + (p.1 as u128);
        i = i + 1;
    }
    proof {
        assert(itms@.subrange(0, n as int) =~= itms@);
        lemma_div_bound(sx as int, n as int, usize::MAX as int);
        lemma_div_bound(sy as int, n as int, usize::MAX as int);
    }
    let cx = sx / (n as u128);
    let cy = sy / (n as u128);
    Some(Point(cx as usize, cy as usize))
}

/// Collects the coordinates of all `part` pixels, in row-major order.
pub fn part_points(img: &Image) -> (pts: Vec<Point<usize>>)
    requires
        img.wf(),
    ensures
        pts@ == part_points_upto(
            img.cells(),
            img.spec_width() as int,
            img.cells().len() as int,
        ),
{
    let w = img.width();
    let n = img.len();
    let mut pts: Vec<Point<usize>> = Vec::new();
    proof {
        assert(pts@ =~= part_points_upto(img.cells(), w as int, 0));
    }
    let mut idx: usize = 0;
    while idx < n
        invariant
            img.wf(),
            idx <= n,
            w == img.spec_width(),
            n == img.cells().len(),
            n == img.area(),
            pts@ == part_points_upto(img.cells(), w as int, idx as int),
        decreases n - idx,
    {
        proof {
            if w == 0 {
                assert(img.area() == 0);
            }
        }
        let x = idx % w;
        let y = idx / w;
        proof {
            crate::grid::lemma_flat_index_decompose(w as int, img.spec_height() as int, idx as int);
        }
        if img.at(x, y).is_part {
            proof {
                assert(img.pidx(x as int, y as int) == idx as int);
            }
            pts.push(Point(x, y));
        }
        idx = idx + 1;
    }
    pts
}

/// The integer centroid of all `part` pixels: the floor of the mean of
/// their coordinates, in grid coordinates. Yields nothing exactly when no
/// pixel is classified `part` — the legitimate "no shape detected" outcome.
pub fn centroid(img: &Image) -> (r: Option<Point<usize>>)
    requires
        img.wf(),
    ensures
        match r {
            Some(p) => {
                &&& part_count(img.cells()) > 0
                &&& p.0 == part_sum_x_upto(
                    img.cells(),
                    img.spec_width() as int,
                    img.cells().len() as int,
                ) / part_count(img.cells())
                &&& p.1 == part_sum_y_upto(
                    img.cells(),
                    img.spec_width() as int,
                    img.cells().len() as int,
                ) / part_count(img.cells())
            },
            None => part_count(img.cells()) == 0,
        },
{
    let pts = part_points(img);
    proof {
        crate::grid::lemma_cells_len_bound(*img);
        if img.cells().len() > 0 {
            assert(img.spec_width() >= 1) by {
                if img.spec_width() == 0 {
                    assert(img.area() == 0);
                }
            }
        }
        lemma_part_points_aggregates(
            img.cells(),
            img.spec_width() as int,
            img.cells().len() as int,
        );
    }
    average(pts.as_slice())
}

} // verus!

