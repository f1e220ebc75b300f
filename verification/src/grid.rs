//! The raster grid: a flat, bounds-checked mapping from pixel coordinates
//! to pixel records, fixed in size once constructed.

use vstd::prelude::*;

verus! {

broadcast use vstd::slice::axiom_spec_len;

/// One cell of the raster: the color channels, the current class
/// (`is_part == true` marks the pixel as part of the detected shape),
/// and the generation tag of the flood-fill scan that last claimed the
/// pixel (`0` means never visited).
#[derive(Clone, Copy, PartialEq, Eq, Structural, Debug)]
pub struct Pixel {
    pub red: u8,
    pub green: u8,
    pub blue: u8,
    pub is_part: bool,
    pub scan_id: usize,
}

impl Pixel {
    /// A fresh pixel of the given color: unclassified and never scanned.
    pub fn new(red: u8, green: u8, blue: u8) -> (p: Pixel)
        ensures
            p == (Pixel { red, green, blue, is_part: false, scan_id: 0 }),
    {
        Pixel { red, green, blue, is_part: false, scan_id: 0 }
    }
}

/// The two pixels carry the same color channels.
pub open spec fn same_rgb(a: Pixel, b: Pixel) -> bool {
    a.red == b.red && a.green == b.green && a.blue == b.blue
}

/// A raster of `width * height` pixel records in row-major order.
/// The cell for coordinate `(x, y)` sits at index `y * width + x`.
pub struct Image {
    data: Vec<Pixel>,
    width: usize,
    height: usize,
}

impl Image {
    /// The pixel records in row-major order.
    pub closed spec fn cells(&self) -> Seq<Pixel> {
        self.data@
    }

    pub closed spec fn spec_width(&self) -> usize {
        self.width
    }

    pub closed spec fn spec_height(&self) -> usize {
        self.height
    }

    /// The number of pixels in the raster.
    pub open spec fn area(&self) -> int {
        self.spec_width() * self.spec_height()
    }

    /// Well-formed: the flat cell store holds exactly one record per coordinate.
    pub open spec fn wf(&self) -> bool {
        self.cells().len() == self.area()
    }

    /// The flat index of coordinate `(x, y)`.
    pub open spec fn pidx(&self, x: int, y: int) -> int {
        y * self.spec_width() + x
    }

    /// `(x, y)` denotes a cell of this raster.
    pub open spec fn in_bounds(&self, x: int, y: int) -> bool {
        0 <= x < self.spec_width() && 0 <= y < self.spec_height()
    }

    #[verifier::when_used_as_spec(spec_width)]
    pub fn width(&self) -> (w: usize)
        ensures
            w == self.spec_width(),
    {
        self.width
    }

    #[verifier::when_used_as_spec(spec_height)]
    pub fn height(&self) -> (h: usize)
        ensures
            h == self.spec_height(),
    {
        self.height
    }

    /// The pixel count, as held by the cell store.
    pub fn len(&self) -> (n: usize)
        requires
            self.wf(),
        ensures
            n == self.area(),
    {
        self.data.len()
    }

    /// Builds the raster from `width * height` color triples, flattened
    /// row-major as three channel bytes per pixel, the layout an image
    /// decoder hands out. Every pixel starts unclassified and unscanned.
    /// Returns `None` exactly when the byte count does not match the
    /// claimed dimensions.
    pub fn from_rbg(width: usize, height: usize, raw: &[u8]) -> (r: Option<Image>)
        ensures
            match r {
                Some(img) => {
                    &&& img.wf()
                    &&& img.spec_width() == width
                    &&& img.spec_height() == height
                    &&& raw@.len() == 3 * img.area()
                    &&& forall|i: int|
                        0 <= i < img.cells().len() ==> img.cells()[i] == (Pixel {
                            red: raw@[3 * i],
                            green: raw@[3 * i + 1],
                            blue: raw@[3 * i + 2],
                            is_part: false,
                            scan_id: 0,
                        })
                },
                None => raw@.len() != 3 * ((width as int) * (height as int)),
            },
    {
        proof {
            vstd::slice::axiom_spec_len(raw);
        }
        let area = match width.checked_mul(height) {
            Some(a) => a,
            None => {
                proof {
                    assert(raw@.len() <= usize::MAX);
                }
                return None;
            },
        };
        let bytes = match area.checked_mul(3) {
            Some(b) => b,
            None => {
                return None;
            },
        };
        if raw.len() != bytes {
            return None;
        }
        let mut data: Vec<Pixel> = Vec::new();
        let mut i: usize = 0;
        while i < area
            invariant
                i <= area,
                area == (width as int) * (height as int),
                raw@.len() == 3 * area,
                raw@.len() <= usize::MAX,
                data@.len() == i,
                forall|k: int|
                    0 <= k < i ==> data@[k] == (Pixel {
                        red: raw@[3 * k],
                        green: raw@[3 * k + 1],
                        blue: raw@[3 * k + 2],
                        is_part: false,
                        scan_id: 0,
                    }),
            decreases area - i,
        {
            let px = Pixel::new(raw[3 * i], raw[3 * i + 1], raw[3 * i + 2]);
            data.push(px);
            i = i + 1;
        }
        Some(Image { data, width, height })
    }

    /// Direct read access; the coordinate must be in bounds.
    pub fn at(&self, x: usize, y: usize) -> (p: &Pixel)
        requires
            self.wf(),
            self.in_bounds(x as int, y as int),
        ensures
            *p == self.cells()[self.pidx(x as int, y as int)],
    {
        proof {
            vstd::std_specs::vec::axiom_spec_len(&self.data);
            lemma_flat_index_bounds(
                self.spec_width() as int,
                self.spec_height() as int,
                x as int,
                y as int,
            );
        }
        &self.data[y * self.width + x]
    }

    /// Direct write access; the coordinate must be in bounds. Exactly the
    /// addressed cell changes, to whatever the caller writes through the
    /// returned reference.
    pub fn at_mut(&mut self, x: usize, y: usize) -> (p: &mut Pixel)
        requires
            old(self).wf(),
            old(self).in_bounds(x as int, y as int),
        ensures
            *p == old(self).cells()[old(self).pidx(x as int, y as int)],
            final (self).cells() == old(self).cells().update(
                old(self).pidx(x as int, y as int),
                *final (p),
            ),
            final (self).spec_width() == old(self).spec_width(),
            final (self).spec_height() == old(self).spec_height(),
    {
        proof {
            vstd::std_specs::vec::axiom_spec_len(&self.data);
            lemma_flat_index_bounds(
                self.spec_width() as int,
                self.spec_height() as int,
                x as int,
                y as int,
            );
        }
        let idx = y * self.width + x;
        vstd::std_specs::vec::vec_index_mut(&mut self.data, idx)
    }

    /// Read access by flat cell index.
    pub fn at_flat(&self, i: usize) -> (p: &Pixel)
        requires
            self.wf(),
            i < self.cells().len(),
        ensures
            *p == self.cells()[i as int],
    {
        &self.data[i]
    }

    /// Write access by flat cell index. Exactly the addressed cell changes,
    /// to whatever the caller writes through the returned reference.
    pub fn at_flat_mut(&mut self, i: usize) -> (p: &mut Pixel)
        requires
            old(self).wf(),
            i < old(self).cells().len(),
        ensures
            *p == old(self).cells()[i as int],
            final (self).cells() == old(self).cells().update(i as int, *final (p)),
            final (self).spec_width() == old(self).spec_width(),
            final (self).spec_height() == old(self).spec_height(),
    {
        vstd::std_specs::vec::vec_index_mut(&mut self.data, i)
    }

    /// Every coordinate of the grid, in row-major order.
    pub fn enumerate(&self) -> (r: Vec<(usize, usize)>)
        requires
            self.wf(),
        ensures
            r@.len() == self.area(),
            forall|k: int|
                0 <= k < r@.len() ==> self.in_bounds(
                    (#[trigger] r@[k]).0 as int,
                    r@[k].1 as int,
                ) && self.pidx(r@[k].0 as int, r@[k].1 as int) == k,
    {
        let w = self.width();
        let n = self.len();
        let mut r: Vec<(usize, usize)> = Vec::new();
        let mut idx: usize = 0;
        while idx < n
            invariant
                self.wf(),
                idx <= n,
                w == self.spec_width(),
                n == self.area(),
                r@.len() == idx,
                forall|k: int|
                    0 <= k < idx ==> self.in_bounds(
                        (#[trigger] r@[k]).0 as int,
                        r@[k].1 as int,
                    ) && self.pidx(r@[k].0 as int, r@[k].1 as int) == k,
            decreases n - idx,
        {
            proof {
                if w == 0 {
                    assert(self.area() == 0);
                }
                lemma_flat_index_decompose(w as int, self.spec_height() as int, idx as int);
            }
            r.push((idx % w, idx / w));
            idx = idx + 1;
        }
        r
    }

    /// A copy of every pixel record, in row-major order.
    pub fn pixels(&self) -> (r: Vec<Pixel>)
        requires
            self.wf(),
        ensures
            r@ == self.cells(),
    {
        let n = self.len();
        let mut r: Vec<Pixel> = Vec::new();
        let mut idx: usize = 0;
        while idx < n
            invariant
                self.wf(),
                idx <= n,
                n == self.cells().len(),
                r@ == self.cells().subrange(0, idx as int),
            decreases n - idx,
        {
            let px = *self.at_flat(idx);
            r.push(px);
            proof {
                assert(r@ =~= self.cells().subrange(0, idx as int + 1));
            }
            idx = idx + 1;
        }
        proof {
            assert(self.cells().subrange(0, n as int) =~= self.cells());
        }
        r
    }

    /// Every coordinate together with a copy of its pixel record, in
    /// row-major order.
    pub fn enumerate_pixels(&self) -> (r: Vec<(usize, usize, Pixel)>)
        requires
            self.wf(),
        ensures
            r@.len() == self.area(),
            forall|k: int|
                0 <= k < r@.len() ==> {
                    let e = #[trigger] r@[k];
                    &&& self.in_bounds(e.0 as int, e.1 as int)
                    &&& self.pidx(e.0 as int, e.1 as int) == k
                    &&& e.2 == self.cells()[k]
                },
    {
        let w = self.width();
        let n = self.len();
        let mut r: Vec<(usize, usize, Pixel)> = Vec::new();
        let mut idx: usize = 0;
        while idx < n
            invariant
                self.wf(),
                idx <= n,
                w == self.spec_width(),
                n == self.area(),
                r@.len() == idx,
                forall|k: int|
                    0 <= k < idx ==> {
                        let e = #[trigger] r@[k];
                        &&& self.in_bounds(e.0 as int, e.1 as int)
                        &&& self.pidx(e.0 as int, e.1 as int) == k
                        &&& e.2 == self.cells()[k]
                    },
            decreases n - idx,
        {
            proof {
                if w == 0 {
                    assert(self.area() == 0);
                }
                lemma_flat_index_decompose(w as int, self.spec_height() as int, idx as int);
            }
            let px = *self.at_flat(idx);
            r.push((idx % w, idx / w, px));
            idx = idx + 1;
        }
        r
    }

    /// Write access that reports an out-of-bounds coordinate instead of
    /// failing, for use at grid edges during neighbor scans.
    pub fn at_mut_checked(&mut self, x: usize, y: usize) -> (p: Option<&mut Pixel>)
        requires
            old(self).wf(),
        ensures
            match p {
                Some(q) => {
                    &&& old(self).in_bounds(x as int, y as int)
                    &&& *q == old(self).cells()[old(self).pidx(x as int, y as int)]
                    &&& final (self).cells() == old(self).cells().update(
                        old(self).pidx(x as int, y as int),
                        *final (q),
                    )
                },
                None => !old(self).in_bounds(x as int, y as int) && *final (self) == *old(self),
            },
            final (self).spec_width() == old(self).spec_width(),
            final (self).spec_height() == old(self).spec_height(),
    {
        if x < self.width && y < self.height {
            Some(self.at_mut(x, y))
        } else {
            None
        }
    }

    /// Read access that reports an out-of-bounds coordinate instead of
    /// failing, for use at grid edges during neighbor scans.
    pub fn at_checked(&self, x: usize, y: usize) -> (p: Option<&Pixel>)
        requires
            self.wf(),
        ensures
            match p {
                Some(px) => self.in_bounds(x as int, y as int) && *px == self.cells()[self.pidx(
                    x as int,
                    y as int,
                )],
                None => !self.in_bounds(x as int, y as int),
            },
    {
        if x < self.width && y < self.height {
            Some(self.at(x, y))
        } else {
            None
        }
    }
}

/// A cell store is a vector, so its length fits the machine's word.
pub broadcast proof fn lemma_cells_len_bound(img: Image)
    ensures
        #[trigger] img.cells().len() <= usize::MAX,
{
    vstd::std_specs::vec::axiom_spec_len(&img.data);
}

/// A coordinate inside a `w` by `h` grid has its flat index inside the cell store.
pub proof fn lemma_flat_index_bounds(w: int, h: int, x: int, y: int)
    requires
        0 <= x < w,
        0 <= y < h,
    ensures
        0 <= y * w + x < w * h,
{
    assert(0 <= y * w + x < w * h) by (nonlinear_arith)
        requires
            0 <= x < w,
            0 <= y < h,
    ;
}

/// A flat index of a `w` by `h` grid decomposes into its row-major
/// coordinates: the remainder and quotient by the width.
pub proof fn lemma_flat_index_decompose(w: int, h: int, i: int)
    requires
        w >= 1,
        0 <= i < w * h,
    ensures
        0 <= i % w < w,
        0 <= i / w < h,
        i == (i / w) * w + (i % w),
{
    vstd::arithmetic::div_mod::lemma_fundamental_div_mod(i, w);
    vstd::arithmetic::div_mod::lemma_mod_bound(i, w);
    vstd::arithmetic::div_mod::lemma_div_pos_is_pos(i, w);
    assert(w * (i / w) == (i / w) * w) by (nonlinear_arith);
    if i / w >= h {
        vstd::arithmetic::mul::lemma_mul_inequality(h, i / w, w);
        assert(h * w <= (i / w) * w);
        assert(w * (i / w) == (i / w) * w) by (nonlinear_arith);
        assert(w * h == h * w) by (nonlinear_arith);
        assert(false);
    }
}

/// Distinct coordinates of a `w`-wide grid have distinct flat indices.
pub proof fn lemma_flat_index_injective(w: int, x1: int, y1: int, x2: int, y2: int)
    requires
        0 <= x1 < w,
        0 <= x2 < w,
        0 <= y1,
        0 <= y2,
        y1 * w + x1 == y2 * w + x2,
    ensures
        x1 == x2 && y1 == y2,
{
    assert(x1 == x2 && y1 == y2) by (nonlinear_arith)
        requires
            0 <= x1 < w,
            0 <= x2 < w,
            0 <= y1,
            0 <= y2,
            y1 * w + x1 == y2 * w + x2,
    ;
}

} // verus!
