//! The forward and inverse 2D discrete cosine transforms over whole grids.
//!
//! Both transforms are the direct double summations, evaluated in fixed
//! point against basis tables: `cos[u * n + x]` stands for the cosine factor
//! `cos(pi * u * (2x+1) / (2n))` and `alpha[u]` for the normalization
//! `sqrt(1/n)` (for `u == 0`) or `sqrt(2/n)` (otherwise), both scaled by
//! `SCALE`. The contracts pin every output cell to the exact fixed-point
//! summation of the input cells against those tables.

use vstd::prelude::*;
use crate::arith::{SCALE, RDIV_MAX_A, rdiv, rdiv128, lemma_rdiv_bound};
use crate::grid::{Grid, MAX_DIM, lemma_grid_index};
use crate::quant::MAX_MAG;

verus! {

/// Largest fixed-point normalization factor: `sqrt(2) * SCALE`, rounded up.
pub const ALPHA_MAX: i128 = 6074001000;

/// Output cells of both transforms stay within this magnitude.
pub const OUT_MAG: i128 = 79228162514264337593543950336;

/// Magnitude bound for the partial products of an inverse-transform term.
const TERM_MID: i128 = 18446744073709551616;

/// Fixed-point basis tables for one grid dimension.
pub struct DctBasis {
    pub(crate) n: usize,
    pub(crate) cos: Vec<i128>,
    pub(crate) alpha: Vec<i128>,
}

impl DctBasis {
    /// The dimension these tables cover.
    pub closed spec fn dim(self) -> int {
        self.n as int
    }

    /// The cosine table, flattened as `u * dim + x`.
    pub closed spec fn cos_seq(self) -> Seq<int> {
        self.cos@.map(|_i: int, x: i128| x as int)
    }

    /// The normalization table.
    pub closed spec fn alpha_seq(self) -> Seq<int> {
        self.alpha@.map(|_i: int, x: i128| x as int)
    }

    /// The cosine factor for frequency `u` at position `x`.
    pub open spec fn b(self, u: int, x: int) -> int {
        self.cos_seq()[u * self.dim() + x]
    }

    /// The normalization factor for frequency `u`.
    pub open spec fn a(self, u: int) -> int {
        self.alpha_seq()[u]
    }

    /// Well-formedness: table lengths match the dimension, cosine entries
    /// have magnitude at most `SCALE` (they stand for values in `[-1, 1]`),
    /// and normalization entries are positive and at most `ALPHA_MAX`
    /// (they stand for values in `(0, sqrt(2)]`).
    pub open spec fn wf(self) -> bool {
        &&& 0 <= self.dim() <= MAX_DIM
        &&& self.cos_seq().len() == self.dim() * self.dim()
        &&& self.alpha_seq().len() == self.dim()
        &&& forall|k: int|
            0 <= k < self.cos_seq().len() ==> -SCALE <= #[trigger] self.cos_seq()[k] <= SCALE
        &&& forall|u: int|
            0 <= u < self.dim() ==> 1 <= #[trigger] self.alpha_seq()[u] <= ALPHA_MAX
    }

    /// Builds basis tables for dimension `n`, validating lengths and ranges.
    pub fn new(n: usize, cos: Vec<i128>, alpha: Vec<i128>) -> (r: Option<DctBasis>)
        ensures
            match r {
                Some(b) => {
                    &&& b.wf()
                    &&& b.dim() == n
                    &&& b.cos_seq() == cos@.map(|_i: int, x: i128| x as int)
                    &&& b.alpha_seq() == alpha@.map(|_i: int, x: i128| x as int)
                },
                None => !({
                    &&& n <= MAX_DIM
                    &&& cos@.len() == n * n
                    &&& alpha@.len() == n
                    &&& forall|k: int| 0 <= k < cos@.len() ==> -SCALE <= #[trigger] cos@[k] <= SCALE
                    &&& forall|u: int|
                        0 <= u < alpha@.len() ==> 1 <= #[trigger] alpha@[u] <= ALPHA_MAX
                }),
            },
    {
        if n > MAX_DIM {
            return None;
        }
        proof {
            assert(n * n <= 4096 * 4096) by (nonlinear_arith)
                requires
                    n <= 4096,
            ;
        }
        if cos.len() != n * n || alpha.len() != n {
            return None;
        }
        let mut k: usize = 0;
        while k < cos.len()
            invariant
                forall|i: int| 0 <= i < k ==> -SCALE <= #[trigger] cos@[i] <= SCALE,
                k <= cos@.len(),
            decreases cos@.len() - k,
        {
            let v = cos[k];
            if v < -SCALE || v > SCALE {
                assert(!(-SCALE <= cos@[k as int] <= SCALE));
                return None;
            }
            k += 1;
        }
        let mut u: usize = 0;
        while u < alpha.len()
            invariant
                forall|i: int| 0 <= i < u ==> 1 <= #[trigger] alpha@[i] <= ALPHA_MAX,
                u <= alpha@.len(),
            decreases alpha@.len() - u,
        {
            let v = alpha[u];
            if v < 1 || v > ALPHA_MAX {
                assert(!(1 <= alpha@[u as int] <= ALPHA_MAX));
                return None;
            }
            u += 1;
        }
        Some(DctBasis { n, cos, alpha })
    }

    /// The dimension these tables cover.
    pub fn dim_len(&self) -> (n: usize)
        ensures
            n == self.dim(),
    {
        self.n
    }

    /// The cosine factor for frequency `u` at position `x`.
    fn bval(&self, u: usize, x: usize) -> (v: i128)
        requires
            self.wf(),
            u < self.dim(),
            x < self.dim(),
        ensures
            v as int == self.b(u as int, x as int),
            -SCALE <= v <= SCALE,
    {
        proof {
            lemma_grid_index(self.dim(), self.dim(), u as int, x as int);
            assert(self.dim() * self.dim() <= 4096 * 4096) by (nonlinear_arith)
                requires
                    0 <= self.dim() <= 4096,
            ;
        }
        self.cos[u * self.n + x]
    }

    /// The normalization factor for frequency `u`.
    fn aval(&self, u: usize) -> (v: i128)
        requires
            self.wf(),
            u < self.dim(),
        ensures
            v as int == self.a(u as int),
            1 <= v <= ALPHA_MAX,
    {
        self.alpha[u]
    }
}

/// `row_sum(f, x, m)` is the sum of `f(x, y)` over `0 <= y < m`.
pub open spec fn row_sum(f: spec_fn(int, int) -> int, x: int, m: int) -> int
    decreases m,
{
    if m <= 0 {
        0
    } else {
        row_sum(f, x, m - 1) + f(x, m - 1)
    }
}

/// `sum2(f, n, m)` is the sum of `f(x, y)` over `0 <= x < n, 0 <= y < m`.
pub open spec fn sum2(f: spec_fn(int, int) -> int, n: int, m: int) -> int
    decreases n,
{
    if n <= 0 {
        0
    } else {
        sum2(f, n - 1, m) + row_sum(f, n - 1, m)
    }
}

/// A pointwise bound on the summand bounds one row's sum.
pub proof fn lemma_row_sum_bound(f: spec_fn(int, int) -> int, x: int, m: int, t: int)
    requires
        0 <= m,
        0 <= t,
        forall|y: int| 0 <= y < m ==> -t <= #[trigger] f(x, y) <= t,
    ensures
        -(m * t) <= row_sum(f, x, m) <= m * t,
    decreases m,
{
    if m > 0 {
        lemma_row_sum_bound(f, x, m - 1, t);
        assert((m - 1) * t + t == m * t) by (nonlinear_arith);
    }
}

/// A pointwise bound on the summand bounds the double sum.
pub proof fn lemma_sum2_bound(f: spec_fn(int, int) -> int, n: int, m: int, t: int)
    requires
        0 <= n,
        0 <= m,
        0 <= t,
        forall|x: int, y: int| 0 <= x < n && 0 <= y < m ==> -t <= #[trigger] f(x, y) <= t,
    ensures
        -(n * m * t) <= sum2(f, n, m) <= n * m * t,
    decreases n,
{
    if n > 0 {
        lemma_sum2_bound(f, n - 1, m, t);
        lemma_row_sum_bound(f, n - 1, m, t);
        assert((n - 1) * m * t + m * t == n * m * t) by (nonlinear_arith);
    }
}

/// Summands that agree on one row give the same row sum.
pub proof fn lemma_row_sum_congr(f: spec_fn(int, int) -> int, g: spec_fn(int, int) -> int, x: int, m: int)
    requires
        forall|y: int| 0 <= y < m ==> #[trigger] f(x, y) == g(x, y),
    ensures
        row_sum(f, x, m) == row_sum(g, x, m),
    decreases m,
{
    if m > 0 {
        lemma_row_sum_congr(f, g, x, m - 1);
    }
}

/// Summands that agree on the domain give the same double sum.
pub proof fn lemma_sum2_congr(f: spec_fn(int, int) -> int, g: spec_fn(int, int) -> int, n: int, m: int)
    requires
        forall|x: int, y: int| 0 <= x < n && 0 <= y < m ==> #[trigger] f(x, y) == g(x, y),
    ensures
        sum2(f, n, m) == sum2(g, n, m),
    decreases n,
{
    if n > 0 {
        lemma_sum2_congr(f, g, n - 1, m);
        lemma_row_sum_congr(f, g, n - 1, m);
    }
}

/// One forward-transform term: the sample times both cosine factors,
/// rescaled after each product.
pub open spec fn dct_term(s: int, b1: int, b2: int) -> int {
    rdiv(rdiv(s * b1, SCALE as int) * b2, SCALE as int)
}

/// The fixed-point product of the two normalization factors.
pub open spec fn alpha_product(au: int, av: int) -> int {
    rdiv(au * av, SCALE as int)
}

/// The forward summand for output frequency `(u, v)` over the cell
/// function `s`.
pub open spec fn dct_sum_f(
    s: spec_fn(int, int) -> int,
    rb: DctBasis,
    cb: DctBasis,
    u: int,
    v: int,
) -> spec_fn(int, int) -> int {
    |x: int, y: int| dct_term(s(x, y), rb.b(u, x), cb.b(v, y))
}

/// Forward-transform output cell `(u, v)` of an `n x m` cell function `s`:
/// the normalization product times the double sum of the terms, rescaled.
pub open spec fn dct_cell(
    s: spec_fn(int, int) -> int,
    rb: DctBasis,
    cb: DctBasis,
    n: int,
    m: int,
    u: int,
    v: int,
) -> int {
    rdiv(alpha_product(rb.a(u), cb.a(v)) * sum2(dct_sum_f(s, rb, cb, u, v), n, m), SCALE as int)
}

/// One inverse-transform term: the normalization product times the
/// coefficient and both cosine factors, rescaled after each product.
pub open spec fn idct_term(c: int, au: int, av: int, b1: int, b2: int) -> int {
    rdiv(rdiv(rdiv(alpha_product(au, av) * c, SCALE as int) * b1, SCALE as int) * b2, SCALE as int)
}

/// The inverse summand for output position `(x, y)` over the coefficient
/// function `c`.
pub open spec fn idct_sum_f(
    c: spec_fn(int, int) -> int,
    rb: DctBasis,
    cb: DctBasis,
    x: int,
    y: int,
) -> spec_fn(int, int) -> int {
    |u: int, v: int| idct_term(c(u, v), rb.a(u), cb.a(v), rb.b(u, x), cb.b(v, y))
}

/// Inverse-transform output cell `(x, y)` of an `n x m` coefficient
/// function `c`: the double sum of the terms over all frequencies.
pub open spec fn idct_cell(
    c: spec_fn(int, int) -> int,
    rb: DctBasis,
    cb: DctBasis,
    n: int,
    m: int,
    x: int,
    y: int,
) -> int {
    sum2(idct_sum_f(c, rb, cb, x, y), n, m)
}

/// A grid read as a cell function.
pub open spec fn grid_fn(g: Grid) -> spec_fn(int, int) -> int {
    |x: int, y: int| g.at(x, y)
}

/// A bounded sample against in-range cosine factors gives a bounded term.
proof fn lemma_dct_term_bound(s: int, b1: int, b2: int)
    requires
        -MAX_MAG <= s <= MAX_MAG,
        -SCALE <= b1 <= SCALE,
        -SCALE <= b2 <= SCALE,
    ensures
        -MAX_MAG <= dct_term(s, b1, b2) <= MAX_MAG,
{
    assert(-(MAX_MAG * SCALE) <= s * b1 <= MAX_MAG * SCALE) by (nonlinear_arith)
        requires
            -MAX_MAG <= s <= MAX_MAG,
            -SCALE <= b1 <= SCALE,
            0 <= MAX_MAG,
            0 <= SCALE,
    ;
    lemma_rdiv_bound(s * b1, SCALE as int, MAX_MAG as int);
    let t1 = rdiv(s * b1, SCALE as int);
    assert(-(MAX_MAG * SCALE) <= t1 * b2 <= MAX_MAG * SCALE) by (nonlinear_arith)
        requires
            -MAX_MAG <= t1 <= MAX_MAG,
            -SCALE <= b2 <= SCALE,
            0 <= MAX_MAG,
            0 <= SCALE,
    ;
    lemma_rdiv_bound(t1 * b2, SCALE as int, MAX_MAG as int);
}

/// The normalization product is bounded by `4 * SCALE`.
proof fn lemma_alpha_product_bound(au: int, av: int)
    requires
        1 <= au <= ALPHA_MAX,
        1 <= av <= ALPHA_MAX,
    ensures
        -(4 * SCALE) <= alpha_product(au, av) <= 4 * SCALE,
{
    assert(-((4 * SCALE) * SCALE) <= au * av <= (4 * SCALE) * SCALE) by (nonlinear_arith)
        requires
            1 <= au <= ALPHA_MAX,
            1 <= av <= ALPHA_MAX,
            ALPHA_MAX == 6074001000i128,
            SCALE == 4294967296i128,
    ;
    lemma_rdiv_bound(au * av, SCALE as int, 4 * SCALE as int);
}

/// A bounded coefficient against in-range factors gives a bounded term.
proof fn lemma_idct_term_bound(c: int, au: int, av: int, b1: int, b2: int)
    requires
        -MAX_MAG <= c <= MAX_MAG,
        1 <= au <= ALPHA_MAX,
        1 <= av <= ALPHA_MAX,
        -SCALE <= b1 <= SCALE,
        -SCALE <= b2 <= SCALE,
    ensures
        -TERM_MID <= idct_term(c, au, av, b1, b2) <= TERM_MID,
{
    lemma_alpha_product_bound(au, av);
    let ap = alpha_product(au, av);
    assert(-(TERM_MID * SCALE) <= ap * c <= TERM_MID * SCALE) by (nonlinear_arith)
        requires
            -(4 * SCALE) <= ap <= 4 * SCALE,
            -MAX_MAG <= c <= MAX_MAG,
            SCALE == 4294967296i128,
            MAX_MAG == 4611686018427387904i128,
            TERM_MID == 18446744073709551616i128,
    ;
    lemma_rdiv_bound(ap * c, SCALE as int, TERM_MID as int);
    let m1 = rdiv(ap * c, SCALE as int);
    assert(-(TERM_MID * SCALE) <= m1 * b1 <= TERM_MID * SCALE) by (nonlinear_arith)
        requires
            -TERM_MID <= m1 <= TERM_MID,
            -SCALE <= b1 <= SCALE,
            0 <= TERM_MID,
            0 <= SCALE,
    ;
    lemma_rdiv_bound(m1 * b1, SCALE as int, TERM_MID as int);
    let m2 = rdiv(m1 * b1, SCALE as int);
    assert(-(TERM_MID * SCALE) <= m2 * b2 <= TERM_MID * SCALE) by (nonlinear_arith)
        requires
            -TERM_MID <= m2 <= TERM_MID,
            -SCALE <= b2 <= SCALE,
            0 <= TERM_MID,
            0 <= SCALE,
    ;
    lemma_rdiv_bound(m2 * b2, SCALE as int, TERM_MID as int);
}

/// The forward summand for `(u, v)` is pointwise bounded by `MAX_MAG` on an
/// in-range grid.
proof fn lemma_dct_f_bounded(g: Grid, rb: DctBasis, cb: DctBasis, u: int, v: int)
    requires
        g.wf(),
        rb.wf(),
        cb.wf(),
        rb.dim() == g.nrows(),
        cb.dim() == g.ncols(),
        g.in_range(MAX_MAG as int),
        0 <= u < g.nrows(),
        0 <= v < g.ncols(),
    ensures
        forall|x: int, y: int|
            0 <= x < g.nrows() && 0 <= y < g.ncols() ==> -MAX_MAG <= #[trigger] dct_sum_f(
                grid_fn(g),
                rb,
                cb,
                u,
                v,
            )(x, y) <= MAX_MAG,
{
    assert forall|x: int, y: int|
        0 <= x < g.nrows() && 0 <= y < g.ncols() implies -MAX_MAG <= #[trigger] dct_sum_f(
        grid_fn(g),
        rb,
        cb,
        u,
        v,
    )(x, y) <= MAX_MAG by {
        lemma_grid_index(g.nrows(), g.ncols(), x, y);
        lemma_grid_index(rb.dim(), rb.dim(), u, x);
        lemma_grid_index(cb.dim(), cb.dim(), v, y);
        lemma_dct_term_bound(g.at(x, y), rb.b(u, x), cb.b(v, y));
    }
}

/// The inverse summand for `(x, y)` is pointwise bounded by `TERM_MID` on an
/// in-range coefficient grid.
proof fn lemma_idct_f_bounded(g: Grid, rb: DctBasis, cb: DctBasis, x: int, y: int)
    requires
        g.wf(),
        rb.wf(),
        cb.wf(),
        rb.dim() == g.nrows(),
        cb.dim() == g.ncols(),
        g.in_range(MAX_MAG as int),
        0 <= x < g.nrows(),
        0 <= y < g.ncols(),
    ensures
        forall|u: int, v: int|
            0 <= u < g.nrows() && 0 <= v < g.ncols() ==> -TERM_MID <= #[trigger] idct_sum_f(
                grid_fn(g),
                rb,
                cb,
                x,
                y,
            )(u, v) <= TERM_MID,
{
    assert forall|u: int, v: int|
        0 <= u < g.nrows() && 0 <= v < g.ncols() implies -TERM_MID <= #[trigger] idct_sum_f(
        grid_fn(g),
        rb,
        cb,
        x,
        y,
    )(u, v) <= TERM_MID by {
        lemma_grid_index(g.nrows(), g.ncols(), u, v);
        lemma_grid_index(rb.dim(), rb.dim(), u, x);
        lemma_grid_index(cb.dim(), cb.dim(), v, y);
        lemma_idct_term_bound(g.at(u, v), rb.a(u), cb.a(v), rb.b(u, x), cb.b(v, y));
    }
}

/// Numeric facts about the magnitude constants, packaged for the transforms.
proof fn lemma_const_facts()
    ensures
        MAX_MAG * SCALE <= RDIV_MAX_A,
        TERM_MID * SCALE <= RDIV_MAX_A,
        (4 * SCALE) * SCALE <= RDIV_MAX_A,
        RDIV_MAX_A <= OUT_MAG * SCALE,
        4096 * 4096 * MAX_MAG <= OUT_MAG,
        4096 * 4096 * TERM_MID <= OUT_MAG,
        (4 * SCALE) * (4096 * 4096 * MAX_MAG) <= RDIV_MAX_A,
{
    assert({
        &&& MAX_MAG * SCALE <= RDIV_MAX_A
        &&& TERM_MID * SCALE <= RDIV_MAX_A
        &&& (4 * SCALE) * SCALE <= RDIV_MAX_A
        &&& RDIV_MAX_A <= OUT_MAG * SCALE
        &&& 4096 * 4096 * MAX_MAG <= OUT_MAG
        &&& 4096 * 4096 * TERM_MID <= OUT_MAG
        &&& (4 * SCALE) * (4096 * 4096 * MAX_MAG) <= RDIV_MAX_A
    }) by (nonlinear_arith)
        requires
            SCALE == 4294967296i128,
            MAX_MAG == 4611686018427387904i128,
            TERM_MID == 18446744073709551616i128,
            OUT_MAG == 79228162514264337593543950336i128,
            RDIV_MAX_A == 1329227995784915872903807060280344576i128,
    ;
}

/// The forward transform: output cell `(u, v)` is the fixed-point double
/// summation `dct_cell` of the input against the basis tables. Dimensions
/// are preserved, and the input grid is read only.
#[verifier::rlimit(100)]
pub fn dct2(g: &Grid, rb: &DctBasis, cb: &DctBasis) -> (out: Grid)
    requires
        g.wf(),
        rb.wf(),
        cb.wf(),
        rb.dim() == g.nrows(),
        cb.dim() == g.ncols(),
        g.in_range(MAX_MAG as int),
    ensures
        out.wf(),
        out.nrows() == g.nrows(),
        out.ncols() == g.ncols(),
        out.in_range(OUT_MAG as int),
        forall|u: int, v: int|
            0 <= u < g.nrows() && 0 <= v < g.ncols() ==> out.at(u, v) == dct_cell(
                grid_fn(*g),
                *rb,
                *cb,
                g.nrows(),
                g.ncols(),
                u,
                v,
            ),
{
    let rows = g.num_rows();
    let cols = g.num_cols();
    let mut data: Vec<i128> = Vec::new();
    let mut u: usize = 0;
    while u < rows
        invariant
            g.wf(),
            rb.wf(),
            cb.wf(),
            rb.dim() == g.nrows(),
            cb.dim() == g.ncols(),
            g.in_range(MAX_MAG as int),
            rows == g.nrows(),
            cols == g.ncols(),
            0 <= u <= rows,
            data@.len() == u * cols,
            forall|r: int, c: int|
                0 <= r < u && 0 <= c < cols ==> #[trigger] data@[r * cols + c] as int == dct_cell(
                    grid_fn(*g),
                    *rb,
                    *cb,
                    rows as int,
                    cols as int,
                    r,
                    c,
                ),
            forall|k: int| 0 <= k < data@.len() ==> -OUT_MAG <= #[trigger] data@[k] <= OUT_MAG,
        decreases rows - u,
    {
        let mut v: usize = 0;
        while v < cols
            invariant
                g.wf(),
                rb.wf(),
                cb.wf(),
                rb.dim() == g.nrows(),
                cb.dim() == g.ncols(),
                g.in_range(MAX_MAG as int),
                rows == g.nrows(),
                cols == g.ncols(),
                0 <= u < rows,
                0 <= v <= cols,
                data@.len() == u * cols + v,
                forall|r: int, c: int|
                    0 <= r < u && 0 <= c < cols ==> #[trigger] data@[r * cols + c] as int
                        == dct_cell(grid_fn(*g), *rb, *cb, rows as int, cols as int, r, c),
                forall|c: int|
                    0 <= c < v ==> #[trigger] data@[u * cols + c] as int == dct_cell(
                        grid_fn(*g),
                        *rb,
                        *cb,
                        rows as int,
                        cols as int,
                        u as int,
                        c,
                    ),
                forall|k: int| 0 <= k < data@.len() ==> -OUT_MAG <= #[trigger] data@[k] <= OUT_MAG,
            decreases cols - v,
        {
            let ghost f = dct_sum_f(grid_fn(*g), *rb, *cb, u as int, v as int);
            proof {
                lemma_dct_f_bounded(*g, *rb, *cb, u as int, v as int);
                lemma_const_facts();
            }
            let mut acc: i128 = 0;
            let mut x: usize = 0;
            while x < rows
                invariant
                    g.wf(),
                    rb.wf(),
                    cb.wf(),
                    rb.dim() == g.nrows(),
                    cb.dim() == g.ncols(),
                    g.in_range(MAX_MAG as int),
                    rows == g.nrows(),
                    cols == g.ncols(),
                    0 <= u < rows,
                    0 <= v < cols,
                    0 <= x <= rows,
                    f == dct_sum_f(grid_fn(*g), *rb, *cb, u as int, v as int),
                    forall|x2: int, y2: int|
                        0 <= x2 < rows && 0 <= y2 < cols ==> -MAX_MAG <= #[trigger] f(x2, y2)
                            <= MAX_MAG,
                    acc == sum2(f, x as int, cols as int),
                decreases rows - x,
            {
                let mut y: usize = 0;
                while y < cols
                    invariant
                        g.wf(),
                        rb.wf(),
                        cb.wf(),
                        rb.dim() == g.nrows(),
                        cb.dim() == g.ncols(),
                        g.in_range(MAX_MAG as int),
                        rows == g.nrows(),
                        cols == g.ncols(),
                        0 <= u < rows,
                        0 <= v < cols,
                        0 <= x < rows,
                        0 <= y <= cols,
                        f == dct_sum_f(grid_fn(*g), *rb, *cb, u as int, v as int),
                        forall|x2: int, y2: int|
                            0 <= x2 < rows && 0 <= y2 < cols ==> -MAX_MAG <= #[trigger] f(x2, y2)
                                <= MAX_MAG,
                        acc == sum2(f, x as int, cols as int) + row_sum(f, x as int, y as int),
                    decreases cols - y,
                {
                    let s = g.get(x, y);
                    let b1 = rb.bval(u, x);
                    let b2 = cb.bval(v, y);
                    proof {
                        lemma_grid_index(rows as int, cols as int, x as int, y as int);
                        lemma_const_facts();
                        assert(-(MAX_MAG * SCALE) <= s * b1 <= MAX_MAG * SCALE)
                            by (nonlinear_arith)
                            requires
                                -MAX_MAG <= s <= MAX_MAG,
                                -SCALE <= b1 <= SCALE,
                                0 <= MAX_MAG,
                                0 <= SCALE,
                        ;
                        lemma_rdiv_bound(s as int * b1 as int, SCALE as int, MAX_MAG as int);
                    }
                    let t1 = rdiv128(s * b1, SCALE);
                    proof {
                        assert(-(MAX_MAG * SCALE) <= t1 * b2 <= MAX_MAG * SCALE)
                            by (nonlinear_arith)
                            requires
                                -MAX_MAG <= t1 <= MAX_MAG,
                                -SCALE <= b2 <= SCALE,
                                0 <= MAX_MAG,
                                0 <= SCALE,
                        ;
                        lemma_rdiv_bound(t1 as int * b2 as int, SCALE as int, MAX_MAG as int);
                    }
                    let t2 = rdiv128(t1 * b2, SCALE);
                    proof {
                        assert(t2 as int == f(x as int, y as int));
                        lemma_sum2_bound(f, x as int, cols as int, MAX_MAG as int);
                        lemma_row_sum_bound(f, x as int, y as int, MAX_MAG as int);
                        assert(x * cols * MAX_MAG + y * MAX_MAG + MAX_MAG <= 4096 * 4096
                            * MAX_MAG) by (nonlinear_arith)
                            requires
                                0 <= x,
                                x + 1 <= rows,
                                rows <= 4096,
                                0 <= y,
                                y + 1 <= cols,
                                cols <= 4096,
                                0 <= MAX_MAG,
                        ;
                    }
                    acc = acc + t2;
                    y += 1;
                }
                x += 1;
            }
            let au = rb.aval(u);
            let av = cb.aval(v);
            proof {
                lemma_const_facts();
                assert(-((4 * SCALE) * SCALE) <= au * av <= (4 * SCALE) * SCALE)
                    by (nonlinear_arith)
                    requires
                        1 <= au <= ALPHA_MAX,
                        1 <= av <= ALPHA_MAX,
                        ALPHA_MAX == 6074001000i128,
                        SCALE == 4294967296i128,
                ;
                lemma_rdiv_bound(au as int * av as int, SCALE as int, 4 * SCALE as int);
            }
            let ap = rdiv128(au * av, SCALE);
            proof {
                lemma_sum2_bound(f, rows as int, cols as int, MAX_MAG as int);
                assert(rows * cols * MAX_MAG <= 4096 * 4096 * MAX_MAG) by (nonlinear_arith)
                    requires
                        0 <= rows <= 4096,
                        0 <= cols <= 4096,
                        0 <= MAX_MAG,
                ;
                assert(-((4 * SCALE) * (4096 * 4096 * MAX_MAG)) <= ap * acc <= (4 * SCALE) * (
                4096 * 4096 * MAX_MAG)) by (nonlinear_arith)
                    requires
                        -(4 * SCALE) <= ap <= 4 * SCALE,
                        -(4096 * 4096 * MAX_MAG) <= acc <= 4096 * 4096 * MAX_MAG,
                        0 <= SCALE,
                        0 <= MAX_MAG,
                ;
                assert(-(OUT_MAG * SCALE) <= ap * acc <= OUT_MAG * SCALE);
                lemma_rdiv_bound(ap as int * acc as int, SCALE as int, OUT_MAG as int);
            }
            let cell = rdiv128(ap * acc, SCALE);
            data.push(cell);
            proof {
                assert(cell as int == dct_cell(
                    grid_fn(*g),
                    *rb,
                    *cb,
                    rows as int,
                    cols as int,
                    u as int,
                    v as int,
                ));
                assert forall|r2: int, c2: int|
                    0 <= r2 < u && 0 <= c2 < cols implies #[trigger] (r2 * cols + c2) < u
                    * cols by {
                    lemma_grid_index(u as int, cols as int, r2, c2);
                };
            }
            v += 1;
        }
        proof {
            assert((u + 1) * cols == u * cols + cols) by (nonlinear_arith);
        }
        u += 1;
    }
    let out = Grid::from_raw(rows, cols, data);
    proof {
        assert forall|u2: int, v2: int|
            0 <= u2 < rows && 0 <= v2 < cols implies out.at(u2, v2) == dct_cell(
            grid_fn(*g),
            *rb,
            *cb,
            rows as int,
            cols as int,
            u2,
            v2,
        ) by {
            lemma_grid_index(rows as int, cols as int, u2, v2);
        };
    }
    out
}

/// The inverse transform: output cell `(x, y)` is the fixed-point double
/// summation `idct_cell` of the coefficients against the basis tables.
/// Dimensions are preserved, and the input grid is read only.
#[verifier::rlimit(100)]
pub fn idct2(g: &Grid, rb: &DctBasis, cb: &DctBasis) -> (out: Grid)
    requires
        g.wf(),
        rb.wf(),
        cb.wf(),
        rb.dim() == g.nrows(),
        cb.dim() == g.ncols(),
        g.in_range(MAX_MAG as int),
    ensures
        out.wf(),
        out.nrows() == g.nrows(),
        out.ncols() == g.ncols(),
        out.in_range(OUT_MAG as int),
        forall|x: int, y: int|
            0 <= x < g.nrows() && 0 <= y < g.ncols() ==> out.at(x, y) == idct_cell(
                grid_fn(*g),
                *rb,
                *cb,
                g.nrows(),
                g.ncols(),
                x,
                y,
            ),
{
    let rows = g.num_rows();
    let cols = g.num_cols();
    let mut data: Vec<i128> = Vec::new();
    let mut x: usize = 0;
    while x < rows
        invariant
            g.wf(),
            rb.wf(),
            cb.wf(),
            rb.dim() == g.nrows(),
            cb.dim() == g.ncols(),
            g.in_range(MAX_MAG as int),
            rows == g.nrows(),
            cols == g.ncols(),
            0 <= x <= rows,
            data@.len() == x * cols,
            forall|r: int, c: int|
                0 <= r < x && 0 <= c < cols ==> #[trigger] data@[r * cols + c] as int == idct_cell(
                    grid_fn(*g),
                    *rb,
                    *cb,
                    rows as int,
                    cols as int,
                    r,
                    c,
                ),
            forall|k: int| 0 <= k < data@.len() ==> -OUT_MAG <= #[trigger] data@[k] <= OUT_MAG,
        decreases rows - x,
    {
        let mut y: usize = 0;
        while y < cols
            invariant
                g.wf(),
                rb.wf(),
                cb.wf(),
                rb.dim() == g.nrows(),
                cb.dim() == g.ncols(),
                g.in_range(MAX_MAG as int),
                rows == g.nrows(),
                cols == g.ncols(),
                0 <= x < rows,
                0 <= y <= cols,
                data@.len() == x * cols + y,
                forall|r: int, c: int|
                    0 <= r < x && 0 <= c < cols ==> #[trigger] data@[r * cols + c] as int
                        == idct_cell(grid_fn(*g), *rb, *cb, rows as int, cols as int, r, c),
                forall|c: int|
                    0 <= c < y ==> #[trigger] data@[x * cols + c] as int == idct_cell(
                        grid_fn(*g),
                        *rb,
                        *cb,
                        rows as int,
                        cols as int,
                        x as int,
                        c,
                    ),
                forall|k: int| 0 <= k < data@.len() ==> -OUT_MAG <= #[trigger] data@[k] <= OUT_MAG,
            decreases cols - y,
        {
            let ghost f = idct_sum_f(grid_fn(*g), *rb, *cb, x as int, y as int);
            proof {
                lemma_idct_f_bounded(*g, *rb, *cb, x as int, y as int);
                lemma_const_facts();
            }
            let mut acc: i128 = 0;
            let mut u: usize = 0;
            while u < rows
                invariant
                    g.wf(),
                    rb.wf(),
                    cb.wf(),
                    rb.dim() == g.nrows(),
                    cb.dim() == g.ncols(),
                    g.in_range(MAX_MAG as int),
                    rows == g.nrows(),
                    cols == g.ncols(),
                    0 <= x < rows,
                    0 <= y < cols,
                    0 <= u <= rows,
                    f == idct_sum_f(grid_fn(*g), *rb, *cb, x as int, y as int),
                    forall|u2: int, v2: int|
                        0 <= u2 < rows && 0 <= v2 < cols ==> -TERM_MID <= #[trigger] f(u2, v2)
                            <= TERM_MID,
                    acc == sum2(f, u as int, cols as int),
                decreases rows - u,
            {
                let mut v: usize = 0;
                while v < cols
                    invariant
                        g.wf(),
                        rb.wf(),
                        cb.wf(),
                        rb.dim() == g.nrows(),
                        cb.dim() == g.ncols(),
                        g.in_range(MAX_MAG as int),
                        rows == g.nrows(),
                        cols == g.ncols(),
                        0 <= x < rows,
                        0 <= y < cols,
                        0 <= u < rows,
                        0 <= v <= cols,
                        f == idct_sum_f(grid_fn(*g), *rb, *cb, x as int, y as int),
                        forall|u2: int, v2: int|
                            0 <= u2 < rows && 0 <= v2 < cols ==> -TERM_MID <= #[trigger] f(u2, v2)
                                <= TERM_MID,
                        acc == sum2(f, u as int, cols as int) + row_sum(f, u as int, v as int),
                    decreases cols - v,
                {
                    let c = g.get(u, v);
                    let au = rb.aval(u);
                    let av = cb.aval(v);
                    let b1 = rb.bval(u, x);
                    let b2 = cb.bval(v, y);
                    proof {
                        lemma_grid_index(rows as int, cols as int, u as int, v as int);
                        lemma_const_facts();
                        assert(-((4 * SCALE) * SCALE) <= au * av <= (4 * SCALE) * SCALE)
                            by (nonlinear_arith)
                            requires
                                1 <= au <= ALPHA_MAX,
                                1 <= av <= ALPHA_MAX,
                                ALPHA_MAX == 6074001000i128,
                                SCALE == 4294967296i128,
                        ;
                        lemma_rdiv_bound(au as int * av as int, SCALE as int, 4 * SCALE as int);
                    }
                    let ap = rdiv128(au * av, SCALE);
                    proof {
                        assert(-(TERM_MID * SCALE) <= ap * c <= TERM_MID * SCALE)
                            by (nonlinear_arith)
                            requires
                                -(4 * SCALE) <= ap <= 4 * SCALE,
                                -MAX_MAG <= c <= MAX_MAG,
                                SCALE == 4294967296i128,
                                MAX_MAG == 4611686018427387904i128,
                                TERM_MID == 18446744073709551616i128,
                        ;
                        lemma_rdiv_bound(ap as int * c as int, SCALE as int, TERM_MID as int);
                    }
                    let m1 = rdiv128(ap * c, SCALE);
                    proof {
                        assert(-(TERM_MID * SCALE) <= m1 * b1 <= TERM_MID * SCALE)
                            by (nonlinear_arith)
                            requires
                                -TERM_MID <= m1 <= TERM_MID,
                                -SCALE <= b1 <= SCALE,
                                0 <= TERM_MID,
                                0 <= SCALE,
                        ;
                        lemma_rdiv_bound(m1 as int * b1 as int, SCALE as int, TERM_MID as int);
                    }
                    let m2 = rdiv128(m1 * b1, SCALE);
                    proof {
                        assert(-(TERM_MID * SCALE) <= m2 * b2 <= TERM_MID * SCALE)
                            by (nonlinear_arith)
                            requires
                                -TERM_MID <= m2 <= TERM_MID,
                                -SCALE <= b2 <= SCALE,
                                0 <= TERM_MID,
                                0 <= SCALE,
                        ;
                        lemma_rdiv_bound(m2 as int * b2 as int, SCALE as int, TERM_MID as int);
                    }
                    let t = rdiv128(m2 * b2, SCALE);
                    proof {
                        assert(t as int == f(u as int, v as int));
                        lemma_sum2_bound(f, u as int, cols as int, TERM_MID as int);
                        lemma_row_sum_bound(f, u as int, v as int, TERM_MID as int);
                        assert(u * cols * TERM_MID + v * TERM_MID + TERM_MID <= 4096 * 4096
                            * TERM_MID) by (nonlinear_arith)
                            requires
                                0 <= u,
                                u + 1 <= rows,
                                rows <= 4096,
                                0 <= v,
                                v + 1 <= cols,
                                cols <= 4096,
                                0 <= TERM_MID,
                        ;
                    }
                    acc = acc + t;
                    v += 1;
                }
                u += 1;
            }
            proof {
                lemma_sum2_bound(f, rows as int, cols as int, TERM_MID as int);
                assert(rows * cols * TERM_MID <= 4096 * 4096 * TERM_MID) by (nonlinear_arith)
                    requires
                        0 <= rows <= 4096,
                        0 <= cols <= 4096,
                        0 <= TERM_MID,
                ;
                assert(acc as int == idct_cell(
                    grid_fn(*g),
                    *rb,
                    *cb,
                    rows as int,
                    cols as int,
                    x as int,
                    y as int,
                ));
                assert forall|r2: int, c2: int|
                    0 <= r2 < x && 0 <= c2 < cols implies #[trigger] (r2 * cols + c2) < x
                    * cols by {
                    lemma_grid_index(x as int, cols as int, r2, c2);
                };
            }
            data.push(acc);
            y += 1;
        }
        proof {
            assert((x + 1) * cols == x * cols + cols) by (nonlinear_arith);
        }
        x += 1;
    }
    let out = Grid::from_raw(rows, cols, data);
    proof {
        assert forall|x2: int, y2: int|
            0 <= x2 < rows && 0 <= y2 < cols implies out.at(x2, y2) == idct_cell(
            grid_fn(*g),
            *rb,
            *cb,
            rows as int,
            cols as int,
            x2,
            y2,
        ) by {
            lemma_grid_index(rows as int, cols as int, x2, y2);
        };
    }
    out
}

} // verus!
