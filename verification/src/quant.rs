//! Quantization of coefficient grids against an 8x8 table of divisors,
//! tiled across the grid by modular indexing.
//!
//! The quantizer maps each coefficient `c` (fixed-point) to
//! `round(c / (q * SCALE)) * SCALE`: the real quotient coefficient-over-divisor
//! rounded half away from zero to the nearest integer, re-expressed in fixed
//! point. This matches rounding the real quotient with `round`.

use vstd::prelude::*;
use crate::arith::{SCALE, rdiv, rdiv128, lemma_rdiv_bound, lemma_rdiv_exact, lemma_rdiv_error};
use crate::grid::{Grid, lemma_grid_index};

verus! {

/// Largest divisor a quantization table may hold.
pub const MAX_QUANT: i128 = 255;

/// Largest cell magnitude the transforms and the quantizer accept.
pub const MAX_MAG: i128 = 4611686018427387904;

/// Quantized multipliers fit below this bound: `MAX_MAG == QUOT_BOUND * SCALE`.
pub const QUOT_BOUND: i128 = 1073741824;

/// Entry `k` (row-major) of the fixed JPEG-standard luminance table.
pub open spec fn standard_entry(k: int) -> int {
    if k == 0 {
        16
    } else if k == 1 {
        11
    } else if k == 2 {
        10
    } else if k == 3 {
        16
    } else if k == 4 {
        24
    } else if k == 5 {
        40
    } else if k == 6 {
        51
    } else if k == 7 {
        61
    } else if k == 8 {
        12
    } else if k == 9 {
        12
    } else if k == 10 {
        14
    } else if k == 11 {
        19
    } else if k == 12 {
        26
    } else if k == 13 {
        58
    } else if k == 14 {
        60
    } else if k == 15 {
        55
    } else if k == 16 {
        14
    } else if k == 17 {
        13
    } else if k == 18 {
        16
    } else if k == 19 {
        24
    } else if k == 20 {
        40
    } else if k == 21 {
        57
    } else if k == 22 {
        69
    } else if k == 23 {
        56
    } else if k == 24 {
        14
    } else if k == 25 {
        17
    } else if k == 26 {
        22
    } else if k == 27 {
        29
    } else if k == 28 {
        51
    } else if k == 29 {
        87
    } else if k == 30 {
        80
    } else if k == 31 {
        62
    } else if k == 32 {
        18
    } else if k == 33 {
        22
    } else if k == 34 {
        37
    } else if k == 35 {
        56
    } else if k == 36 {
        68
    } else if k == 37 {
        109
    } else if k == 38 {
        103
    } else if k == 39 {
        77
    } else if k == 40 {
        24
    } else if k == 41 {
        35
    } else if k == 42 {
        55
    } else if k == 43 {
        64
    } else if k == 44 {
        81
    } else if k == 45 {
        104
    } else if k == 46 {
        113
    } else if k == 47 {
        92
    } else if k == 48 {
        49
    } else if k == 49 {
        64
    } else if k == 50 {
        78
    } else if k == 51 {
        87
    } else if k == 52 {
        103
    } else if k == 53 {
        121
    } else if k == 54 {
        120
    } else if k == 55 {
        101
    } else if k == 56 {
        72
    } else if k == 57 {
        92
    } else if k == 58 {
        95
    } else if k == 59 {
        98
    } else if k == 60 {
        112
    } else if k == 61 {
        100
    } else if k == 62 {
        103
    } else if k == 63 {
        99
    } else {
        99
    }
}

/// Entry `k` (row-major) of the fixed JPEG-standard luminance table.
fn standard_entry_at(k: usize) -> (v: i128)
    requires
        k < 64,
    ensures
        v as int == standard_entry(k as int),
{
    if k == 0 {
        16
    } else if k == 1 {
        11
    } else if k == 2 {
        10
    } else if k == 3 {
        16
    } else if k == 4 {
        24
    } else if k == 5 {
        40
    } else if k == 6 {
        51
    } else if k == 7 {
        61
    } else if k == 8 {
        12
    } else if k == 9 {
        12
    } else if k == 10 {
        14
    } else if k == 11 {
        19
    } else if k == 12 {
        26
    } else if k == 13 {
        58
    } else if k == 14 {
        60
    } else if k == 15 {
        55
    } else if k == 16 {
        14
    } else if k == 17 {
        13
    } else if k == 18 {
        16
    } else if k == 19 {
        24
    } else if k == 20 {
        40
    } else if k == 21 {
        57
    } else if k == 22 {
        69
    } else if k == 23 {
        56
    } else if k == 24 {
        14
    } else if k == 25 {
        17
    } else if k == 26 {
        22
    } else if k == 27 {
        29
    } else if k == 28 {
        51
    } else if k == 29 {
        87
    } else if k == 30 {
        80
    } else if k == 31 {
        62
    } else if k == 32 {
        18
    } else if k == 33 {
        22
    } else if k == 34 {
        37
    } else if k == 35 {
        56
    } else if k == 36 {
        68
    } else if k == 37 {
        109
    } else if k == 38 {
        103
    } else if k == 39 {
        77
    } else if k == 40 {
        24
    } else if k == 41 {
        35
    } else if k == 42 {
        55
    } else if k == 43 {
        64
    } else if k == 44 {
        81
    } else if k == 45 {
        104
    } else if k == 46 {
        113
    } else if k == 47 {
        92
    } else if k == 48 {
        49
    } else if k == 49 {
        64
    } else if k == 50 {
        78
    } else if k == 51 {
        87
    } else if k == 52 {
        103
    } else if k == 53 {
        121
    } else if k == 54 {
        120
    } else if k == 55 {
        101
    } else if k == 56 {
        72
    } else if k == 57 {
        92
    } else if k == 58 {
        95
    } else if k == 59 {
        98
    } else if k == 60 {
        112
    } else if k == 61 {
        100
    } else if k == 62 {
        103
    } else if k == 63 {
        99
    } else {
        99
    }
}

/// An 8x8 table of positive divisors, tiled across a grid by `(i % 8, j % 8)`.
pub struct QTable {
    pub(crate) data: Vec<i128>,
}

impl QTable {
    /// The 64 divisors, row-major.
    pub closed spec fn entries(self) -> Seq<int> {
        self.data@.map(|_i: int, x: i128| x as int)
    }

    /// Well-formedness: exactly 64 divisors, each in `[1, MAX_QUANT]`.
    pub open spec fn wf(self) -> bool {
        &&& self.entries().len() == 64
        &&& forall|k: int| 0 <= k < 64 ==> 1 <= #[trigger] self.entries()[k] <= MAX_QUANT
    }

    /// The divisor applied at grid position `(i, j)`: the table is tiled
    /// across the grid by modular indexing.
    pub open spec fn q(self, i: int, j: int) -> int {
        self.entries()[(i % 8) * 8 + (j % 8)]
    }

    /// Builds a table from 64 row-major divisors; rejects a wrong count or a
    /// divisor outside `[1, MAX_QUANT]`.
    pub fn new(data: Vec<i128>) -> (t: Option<QTable>)
        ensures
            match t {
                Some(t) => {
                    &&& t.wf()
                    &&& t.entries() == data@.map(|_i: int, x: i128| x as int)
                },
                None => !(data@.len() == 64 && (forall|k: int|
                    0 <= k < 64 ==> 1 <= #[trigger] data@[k] <= MAX_QUANT)),
            },
    {
        if data.len() != 64 {
            return None;
        }
        let mut k: usize = 0;
        while k < 64
            invariant
                data@.len() == 64,
                0 <= k <= 64,
                forall|i: int| 0 <= i < k ==> 1 <= #[trigger] data@[i] <= MAX_QUANT,
            decreases 64 - k,
        {
            let v = data[k];
            if v < 1 || v > MAX_QUANT {
                assert(!(1 <= data@[k as int] <= MAX_QUANT));
                return None;
            }
            k += 1;
        }
        Some(QTable { data })
    }

    /// The fixed JPEG-standard luminance table.
    pub fn standard() -> (t: QTable)
        ensures
            t.wf(),
            forall|k: int| 0 <= k < 64 ==> #[trigger] t.entries()[k] == standard_entry(k),
    {
        let mut data: Vec<i128> = Vec::new();
        let mut k: usize = 0;
        while k < 64
            invariant
                0 <= k <= 64,
                data@.len() == k,
                forall|i: int| 0 <= i < k ==> #[trigger] data@[i] as int == standard_entry(i),
            decreases 64 - k,
        {
            let v = standard_entry_at(k);
            data.push(v);
            k += 1;
        }
        let t = QTable { data };
        proof {
            assert(forall|i: int| 0 <= i < 64 ==> 1 <= #[trigger] standard_entry(i) <= MAX_QUANT);
        }
        t
    }

    /// A table with the same divisor `d` everywhere. With `d == 1` the
    /// quantizer rounds each coefficient to its nearest integer sample.
    pub fn uniform(d: i128) -> (t: QTable)
        requires
            1 <= d <= MAX_QUANT,
        ensures
            t.wf(),
            forall|k: int| 0 <= k < 64 ==> #[trigger] t.entries()[k] == d,
    {
        let mut data: Vec<i128> = Vec::new();
        let mut k: usize = 0;
        while k < 64
            invariant
                0 <= k <= 64,
                data@.len() == k,
                forall|i: int| 0 <= i < k ==> #[trigger] data@[i] == d,
            decreases 64 - k,
        {
            data.push(d);
            k += 1;
        }
        QTable { data }
    }

    /// The divisor at `(i, j)`.
    pub fn lookup(&self, i: usize, j: usize) -> (d: i128)
        requires
            self.wf(),
        ensures
            d as int == self.q(i as int, j as int),
            1 <= d <= MAX_QUANT,
    {
        self.data[(i % 8) * 8 + (j % 8)]
    }
}

/// One quantized cell: the coefficient divided by the effective step
/// `q * SCALE` and rounded half away from zero, re-expressed in fixed point.
/// In real terms this is `round(c / q)` for the coefficient `c / SCALE`.
pub open spec fn quant_cell(c: int, q: int) -> int {
    rdiv(c, q * SCALE) * SCALE
}

/// Quantizes a coefficient grid cell by cell against the tiled table.
/// The output has the dimensions of the input, and every output cell is
/// exactly `quant_cell` of the input cell and the tiled divisor.
pub fn quantize(g: &Grid, t: &QTable) -> (out: Grid)
    requires
        g.wf(),
        t.wf(),
        g.in_range(MAX_MAG as int),
    ensures
        out.wf(),
        out.nrows() == g.nrows(),
        out.ncols() == g.ncols(),
        out.in_range(MAX_MAG as int),
        forall|i: int, j: int|
            0 <= i < g.nrows() && 0 <= j < g.ncols() ==> out.at(i, j) == quant_cell(
                g.at(i, j),
                t.q(i, j),
            ),
{
    let rows = g.num_rows();
    let cols = g.num_cols();
    let mut data: Vec<i128> = Vec::new();
    let mut i: usize = 0;
    while i < rows
        invariant
            g.wf(),
            t.wf(),
            g.in_range(MAX_MAG as int),
            rows == g.nrows(),
            cols == g.ncols(),
            0 <= i <= rows,
            data@.len() == i * cols,
            forall|r: int, c: int|
                0 <= r < i && 0 <= c < cols ==> #[trigger] data@[r * cols + c] as int
                    == quant_cell(g.at(r, c), t.q(r, c)),
            forall|k: int| 0 <= k < data@.len() ==> -MAX_MAG <= #[trigger] data@[k] <= MAX_MAG,
        decreases rows - i,
    {
        let mut j: usize = 0;
        while j < cols
            invariant
                g.wf(),
                t.wf(),
                g.in_range(MAX_MAG as int),
                rows == g.nrows(),
                cols == g.ncols(),
                0 <= i < rows,
                0 <= j <= cols,
                data@.len() == i * cols + j,
                forall|r: int, c: int|
                    0 <= r < i && 0 <= c < cols ==> #[trigger] data@[r * cols + c] as int
                        == quant_cell(g.at(r, c), t.q(r, c)),
                forall|c: int|
                    0 <= c < j ==> #[trigger] data@[i * cols + c] as int
                        == quant_cell(g.at(i as int, c), t.q(i as int, c)),
                forall|k: int| 0 <= k < data@.len() ==> -MAX_MAG <= #[trigger] data@[k] <= MAX_MAG,
            decreases cols - j,
        {
            let cval = g.get(i, j);
            let d = t.lookup(i, j);
            proof {
                lemma_grid_index(rows as int, cols as int, i as int, j as int);
                assert(-MAX_MAG <= cval <= MAX_MAG);
                assert(MAX_MAG <= QUOT_BOUND * (d * SCALE)) by (nonlinear_arith)
                    requires
                        1 <= d,
                        SCALE == 4294967296i128,
                        QUOT_BOUND == 1073741824i128,
                        MAX_MAG == 4611686018427387904i128,
                ;
                lemma_rdiv_bound(cval as int, d * SCALE, QUOT_BOUND as int);
            }
            let step = d * SCALE;
            let r = rdiv128(cval, step);
            let v = r * SCALE;
            data.push(v);
            proof {
                assert forall|r2: int, c2: int|
                    0 <= r2 < i && 0 <= c2 < cols implies #[trigger] (r2 * cols + c2) < i * cols by {
                    lemma_grid_index(i as int, cols as int, r2, c2);
                };
            }
            j += 1;
        }
        proof {
            assert((i + 1) * cols == i * cols + cols) by (nonlinear_arith);
        }
        i += 1;
    }
    let out = Grid::from_raw(rows, cols, data);
    proof {
        assert forall|i2: int, j2: int|
            0 <= i2 < out.nrows() && 0 <= j2 < out.ncols() implies out.at(i2, j2) == quant_cell(
            g.at(i2, j2),
            t.q(i2, j2),
        ) by {
            lemma_grid_index(rows as int, cols as int, i2, j2);
        };
    }
    out
}

/// Quantizer idempotence on exact multiples: a coefficient that is exactly
/// `k` times the effective step of its divisor is quantized to exactly the
/// multiplier `k` (as a fixed-point sample).
pub proof fn lemma_quantize_exact_multiple(k: int, q: int)
    requires
        1 <= q,
    ensures
        quant_cell(k * q * SCALE, q) == k * SCALE,
{
    assert(k * q * SCALE == k * (q * SCALE)) by (nonlinear_arith);
    assert(q * SCALE >= 1) by (nonlinear_arith)
        requires
            q >= 1,
            SCALE == 4294967296i128,
    ;
    lemma_rdiv_exact(k, q * (SCALE as int));
}

/// Per-cell quantization error: the coefficient the quantized value stands
/// for (`q` times the quantized multiplier) differs from the original
/// coefficient by at most half the effective step `q * SCALE`. A smaller
/// divisor therefore bounds the loss more tightly; with the all-ones table
/// the quantizer rounds each coefficient to its nearest integer sample.
pub proof fn lemma_quant_cell_error(c: int, q: int)
    requires
        1 <= q,
    ensures
        -(q * SCALE) <= 2 * (c - q * quant_cell(c, q)) <= q * SCALE,
{
    assert(q * SCALE >= 1) by (nonlinear_arith)
        requires
            q >= 1,
            SCALE == 4294967296i128,
    ;
    lemma_rdiv_error(c, q * (SCALE as int));
    let r = rdiv(c, q * (SCALE as int));
    assert(q * (r * SCALE) == (q * SCALE) * r) by (nonlinear_arith);
}

} // verus!
