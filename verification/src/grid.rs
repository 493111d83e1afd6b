//! Dense 2D grids of fixed-point samples, addressed by `(row, col)` and
//! stored row-major, together with the conversions between pixel intensities
//! and fixed-point samples.

use vstd::prelude::*;
use crate::arith::{SCALE, rdiv, rdiv128, lemma_rdiv_exact, lemma_rdiv_monotone};

verus! {

/// Largest number of rows (and of columns) a grid may have.
pub const MAX_DIM: usize = 4096;

/// A dense `rows x cols` grid of fixed-point values, stored row-major.
/// Each stage of the pipeline takes a grid and produces a fresh one of the
/// same dimensions; grids are never mutated in place.
pub struct Grid {
    pub(crate) rows: usize,
    pub(crate) cols: usize,
    pub(crate) data: Vec<i128>,
}

/// A flat `(row, col)` pair indexes inside the row-major data exactly when
/// both coordinates are inside the dimensions.
pub proof fn lemma_grid_index(rows: int, cols: int, r: int, c: int)
    by (nonlinear_arith)
    requires
        0 <= r < rows,
        0 <= c < cols,
    ensures
        0 <= r * cols + c < rows * cols,
{
}

impl Grid {
    /// The number of rows, as a mathematical integer.
    pub closed spec fn nrows(self) -> int {
        self.rows as int
    }

    /// The number of columns, as a mathematical integer.
    pub closed spec fn ncols(self) -> int {
        self.cols as int
    }

    /// The cells in row-major order, as mathematical integers.
    pub closed spec fn cells(self) -> Seq<int> {
        self.data@.map(|_i: int, x: i128| x as int)
    }

    /// The cell at `(r, c)`.
    pub open spec fn at(self, r: int, c: int) -> int {
        self.cells()[r * self.ncols() + c]
    }

    /// Well-formedness: the data covers the dimensions exactly, and the
    /// dimensions are within the supported range.
    pub open spec fn wf(self) -> bool {
        &&& self.cells().len() == self.nrows() * self.ncols()
        &&& 0 <= self.nrows() <= MAX_DIM
        &&& 0 <= self.ncols() <= MAX_DIM
    }

    /// Every cell has magnitude at most `b`.
    pub open spec fn in_range(self, b: int) -> bool {
        forall|i: int| 0 <= i < self.cells().len() ==> -b <= #[trigger] self.cells()[i] <= b
    }

    /// Builds a grid from row-major data; rejects dimensions that are out of
    /// the supported range or that do not match the data length.
    pub fn new(rows: usize, cols: usize, data: Vec<i128>) -> (g: Option<Grid>)
        ensures
            match g {
                Some(g) => {
                    &&& g.wf()
                    &&& g.nrows() == rows
                    &&& g.ncols() == cols
                    &&& g.cells() == data@.map(|_i: int, x: i128| x as int)
                },
                None => !(rows <= MAX_DIM && cols <= MAX_DIM && data@.len() == rows * cols),
            },
    {
        if rows <= MAX_DIM && cols <= MAX_DIM {
            proof {
                assert(rows * cols <= 4096 * 4096) by (nonlinear_arith)
                    requires
                        rows <= 4096,
                        cols <= 4096,
                ;
            }
            if data.len() == rows * cols {
                return Some(Grid { rows, cols, data });
            }
        }
        None
    }

    /// Crate-internal constructor for data whose dimensions are already known
    /// to match.
    pub(crate) fn from_raw(rows: usize, cols: usize, data: Vec<i128>) -> (g: Grid)
        requires
            rows <= MAX_DIM,
            cols <= MAX_DIM,
            data@.len() == rows * cols,
        ensures
            g.wf(),
            g.nrows() == rows,
            g.ncols() == cols,
            g.cells() == data@.map(|_i: int, x: i128| x as int),
    {
        Grid { rows, cols, data }
    }

    /// The number of rows.
    pub fn num_rows(&self) -> (n: usize)
        ensures
            n == self.nrows(),
    {
        self.rows
    }

    /// The number of columns.
    pub fn num_cols(&self) -> (n: usize)
        ensures
            n == self.ncols(),
    {
        self.cols
    }

    /// The cell at `(r, c)`.
    pub fn get(&self, r: usize, c: usize) -> (v: i128)
        requires
            self.wf(),
            r < self.nrows(),
            c < self.ncols(),
        ensures
            v as int == self.at(r as int, c as int),
    {
        proof {
            lemma_grid_index(self.nrows(), self.ncols(), r as int, c as int);
            assert(self.nrows() * self.ncols() <= 4096 * 4096) by (nonlinear_arith)
                requires
                    0 <= self.nrows() <= 4096,
                    0 <= self.ncols() <= 4096,
            ;
        }
        self.data[r * self.cols + c]
    }

    /// Decides whether every cell has magnitude at most `bound`.
    pub fn magnitude_ok(&self, bound: i128) -> (ok: bool)
        requires
            0 <= bound,
        ensures
            ok <==> self.in_range(bound as int),
    {
        let mut i: usize = 0;
        while i < self.data.len()
            invariant
                0 <= i <= self.data@.len(),
                0 <= bound,
                forall|k: int| 0 <= k < i ==> -bound <= #[trigger] self.data@[k] <= bound,
            decreases self.data@.len() - i,
        {
            let v = self.data[i];
            if v < -bound || v > bound {
                assert(!(-bound <= self.cells()[i as int] <= bound));
                return false;
            }
            i += 1;
        }
        true
    }
}

/// Clamping of a rounded sample to the displayable intensity range.
pub open spec fn clamp255(r: int) -> int {
    if r < 0 {
        0
    } else if r > 255 {
        255
    } else {
        r
    }
}

/// The fixed-point sample standing for the pixel intensity `p`.
pub fn sample_from_pixel(p: u8) -> (v: i128)
    ensures
        v == p as int * SCALE,
        0 <= v <= 255 * SCALE,
{
    (p as i128) * SCALE
}

/// The pixel intensity standing for the fixed-point sample `v`: the sample
/// rounded to the nearest integer (half away from zero) and clamped to
/// `[0, 255]`. Total: samples far outside the range clamp like nearer ones.
pub fn pixel_from_sample(v: i128) -> (p: u8)
    ensures
        p as int == clamp255(rdiv(v as int, SCALE as int)),
{
    if v <= -SCALE {
        proof {
            lemma_rdiv_monotone(v as int, -(SCALE as int), SCALE as int);
            lemma_rdiv_exact(-1, SCALE as int);
            assert((-1) * (SCALE as int) == -(SCALE as int));
        }
        0
    } else if v >= 256 * SCALE {
        proof {
            lemma_rdiv_monotone(256 * (SCALE as int), v as int, SCALE as int);
            lemma_rdiv_exact(256, SCALE as int);
        }
        255
    } else {
        let r = rdiv128(v, SCALE);
        if r < 0 {
            0
        } else if r > 255 {
            255
        } else {
            r as u8
        }
    }
}

/// Builds the sample grid standing for a row-major pixel buffer: each cell is
/// the pixel value scaled to fixed point. Rejects dimensions out of range or
/// not matching the buffer length.
pub fn grid_from_pixels(rows: usize, cols: usize, pixels: &Vec<u8>) -> (g: Option<Grid>)
    ensures
        match g {
            Some(g) => {
                &&& g.wf()
                &&& g.nrows() == rows
                &&& g.ncols() == cols
                &&& g.cells().len() == pixels@.len()
                &&& forall|i: int|
                    0 <= i < pixels@.len() ==> #[trigger] g.cells()[i] == pixels@[i] * SCALE
                &&& g.in_range(255 * SCALE)
            },
            None => !(rows <= MAX_DIM && cols <= MAX_DIM && pixels@.len() == rows * cols),
        },
{
    let mut data: Vec<i128> = Vec::new();
    let mut i: usize = 0;
    while i < pixels.len()
        invariant
            0 <= i <= pixels@.len(),
            data@.len() == i,
            forall|k: int| 0 <= k < i ==> #[trigger] data@[k] as int == pixels@[k] * SCALE,
            forall|k: int| 0 <= k < i ==> 0 <= #[trigger] data@[k] <= 255 * SCALE,
        decreases pixels@.len() - i,
    {
        let v = sample_from_pixel(pixels[i]);
        data.push(v);
        i += 1;
    }
    Grid::new(rows, cols, data)
}

/// Rounds and clamps every cell of a grid into a row-major pixel buffer.
pub fn pixels_from_grid(g: &Grid) -> (p: Vec<u8>)
    requires
        g.wf(),
    ensures
        p@.len() == g.cells().len(),
        forall|i: int|
            0 <= i < p@.len() ==> #[trigger] p@[i] as int == clamp255(
                rdiv(g.cells()[i], SCALE as int),
            ),
{
    let mut out: Vec<u8> = Vec::new();
    let mut i: usize = 0;
    while i < g.data.len()
        invariant
            g.wf(),
            0 <= i <= g.data@.len(),
            out@.len() == i,
            forall|k: int|
                0 <= k < i ==> #[trigger] out@[k] as int == clamp255(
                    rdiv(g.cells()[k], SCALE as int),
                ),
        decreases g.data@.len() - i,
    {
        let px = pixel_from_sample(g.data[i]);
        out.push(px);
        i += 1;
    }
    out
}

} // verus!
