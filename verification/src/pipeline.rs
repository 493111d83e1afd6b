//! The composed pipeline: forward transform, quantization against the tiled
//! table, inverse transform. The contract states the whole composition:
//! every output cell is the inverse transform of the quantized forward
//! coefficients of the input.

use vstd::prelude::*;
use vstd::arithmetic::div_mod::lemma_fundamental_div_mod;
use crate::grid::{Grid, lemma_grid_index};
use crate::quant::{MAX_MAG, QTable, quant_cell, quantize};
use crate::dct::{
    DctBasis, OUT_MAG, dct_cell, dct2, grid_fn, idct_cell, idct_sum_f, idct2, lemma_sum2_congr,
};

verus! {

/// The coefficient function the quantized forward transform stands for:
/// the forward cell at `(u, v)`, quantized against the tiled table.
pub open spec fn pipeline_coeff(g: Grid, t: QTable, rb: DctBasis, cb: DctBasis) -> spec_fn(
    int,
    int,
) -> int {
    |u: int, v: int| quant_cell(
        dct_cell(grid_fn(g), rb, cb, g.nrows(), g.ncols(), u, v),
        t.q(u, v),
    )
}

/// All forward coefficients of `g` fit the magnitude the quantizer accepts.
pub open spec fn coeffs_in_range(g: Grid, rb: DctBasis, cb: DctBasis) -> bool {
    forall|u: int, v: int|
        0 <= u < g.nrows() && 0 <= v < g.ncols() ==> -MAX_MAG <= #[trigger] dct_cell(
            grid_fn(g),
            rb,
            cb,
            g.nrows(),
            g.ncols(),
            u,
            v,
        ) <= MAX_MAG
}

/// Runs the whole pipeline on a sample grid. Returns `None` exactly when
/// some forward coefficient exceeds the magnitude the quantizer accepts;
/// otherwise the output has the input's dimensions and every output cell is
/// `idct_cell` of the quantized forward coefficients.
pub fn compress(g: &Grid, t: &QTable, rb: &DctBasis, cb: &DctBasis) -> (out: Option<Grid>)
    requires
        g.wf(),
        t.wf(),
        rb.wf(),
        cb.wf(),
        rb.dim() == g.nrows(),
        cb.dim() == g.ncols(),
        g.in_range(MAX_MAG as int),
    ensures
        match out {
            Some(o) => {
                &&& coeffs_in_range(*g, *rb, *cb)
                &&& o.wf()
                &&& o.nrows() == g.nrows()
                &&& o.ncols() == g.ncols()
                &&& o.in_range(OUT_MAG as int)
                &&& forall|x: int, y: int|
                    0 <= x < g.nrows() && 0 <= y < g.ncols() ==> o.at(x, y) == idct_cell(
                        pipeline_coeff(*g, *t, *rb, *cb),
                        *rb,
                        *cb,
                        g.nrows(),
                        g.ncols(),
                        x,
                        y,
                    )
            },
            None => !coeffs_in_range(*g, *rb, *cb),
        },
{
    let rows = g.num_rows();
    let cols = g.num_cols();
    let d = dct2(g, rb, cb);
    if !d.magnitude_ok(MAX_MAG) {
        proof {
            let k = choose|k: int|
                0 <= k < d.cells().len() && !(-MAX_MAG <= #[trigger] d.cells()[k] <= MAX_MAG);
            assert(cols > 0) by (nonlinear_arith)
                requires
                    0 <= k,
                    k < rows * cols,
                    0 <= rows,
                    0 <= cols,
            ;
            let u = k / (cols as int);
            let v = k % (cols as int);
            lemma_fundamental_div_mod(k, cols as int);
            assert(0 <= u < rows && 0 <= v < cols) by (nonlinear_arith)
                requires
                    k == (cols as int) * u + v,
                    0 <= v < cols,
                    0 <= k,
                    k < rows * cols,
                    0 < cols,
            ;
            assert(u * (cols as int) + v == k) by (nonlinear_arith)
                requires
                    k == (cols as int) * u + v,
            ;
            assert(d.at(u, v) == d.cells()[k]);
            assert(!coeffs_in_range(*g, *rb, *cb));
        }
        return None;
    }
    let q = quantize(&d, t);
    let r = idct2(&q, rb, cb);
    proof {
        assert forall|u: int, v: int|
            0 <= u < rows && 0 <= v < cols implies -MAX_MAG <= #[trigger] dct_cell(
            grid_fn(*g),
            *rb,
            *cb,
            rows as int,
            cols as int,
            u,
            v,
        ) <= MAX_MAG by {
            lemma_grid_index(rows as int, cols as int, u, v);
            assert(d.at(u, v) == d.cells()[u * (cols as int) + v]);
        };
        let pc = pipeline_coeff(*g, *t, *rb, *cb);
        assert forall|x: int, y: int|
            0 <= x < rows && 0 <= y < cols implies r.at(x, y) == idct_cell(
            pc,
            *rb,
            *cb,
            rows as int,
            cols as int,
            x,
            y,
        ) by {
            let f1 = idct_sum_f(grid_fn(q), *rb, *cb, x, y);
            let f2 = idct_sum_f(pc, *rb, *cb, x, y);
            assert forall|u: int, v: int|
                0 <= u < rows && 0 <= v < cols implies #[trigger] f1(u, v) == f2(u, v) by {
                assert(grid_fn(q)(u, v) == q.at(u, v));
                assert(q.at(u, v) == quant_cell(d.at(u, v), t.q(u, v)));
                assert(pc(u, v) == quant_cell(
                    dct_cell(grid_fn(*g), *rb, *cb, rows as int, cols as int, u, v),
                    t.q(u, v),
                ));
            };
            lemma_sum2_congr(f1, f2, rows as int, cols as int);
        };
    }
    Some(r)
}

} // verus!
