//! End-to-end tests of the transform pipeline, with basis tables computed
//! in double precision and converted to fixed point.

use dct_pipeline::arith::SCALE;
use dct_pipeline::dct::{dct2, idct2, DctBasis};
use dct_pipeline::grid::{grid_from_pixels, pixel_from_sample, pixels_from_grid, sample_from_pixel, Grid};
use dct_pipeline::pipeline::compress;
use dct_pipeline::quant::{quantize, QTable, MAX_MAG};

const SCALE_F: f64 = 4294967296.0;

fn build_basis(n: usize) -> DctBasis {
    let pi = std::f64::consts::PI;
    let mut cos: Vec<i128> = Vec::new();
    for u in 0..n {
        for x in 0..n {
            let c = (pi * u as f64 * (2.0 * x as f64 + 1.0) / (2.0 * n as f64)).cos();
            cos.push((c * SCALE_F).round() as i128);
        }
    }
    let mut alpha: Vec<i128> = Vec::new();
    for u in 0..n {
        let a = if u == 0 {
            (1.0 / n as f64).sqrt()
        } else {
            (2.0 / n as f64).sqrt()
        };
        alpha.push((a * SCALE_F).round() as i128);
    }
    DctBasis::new(n, cos, alpha).expect("basis tables in range")
}

fn grid_from_f64(rows: usize, cols: usize, vals: &[f64]) -> Grid {
    assert_eq!(vals.len(), rows * cols);
    let data: Vec<i128> = vals.iter().map(|v| (v * SCALE_F).round() as i128).collect();
    Grid::new(rows, cols, data).expect("grid dimensions in range")
}

fn grid_to_f64(g: &Grid) -> Vec<f64> {
    let rows = g.num_rows();
    let cols = g.num_cols();
    let mut out = Vec::new();
    for r in 0..rows {
        for c in 0..cols {
            out.push(g.get(r, c) as f64 / SCALE_F);
        }
    }
    out
}

fn test_image_8x8() -> Vec<f64> {
    let mut v = Vec::new();
    for x in 0..8 {
        for y in 0..8 {
            let ramp = (x * 20 + y * 10) as f64;
            let texture = if (x + y) % 2 == 0 { 30.0 } else { -30.0 };
            v.push((ramp + texture + 40.0).clamp(0.0, 255.0));
        }
    }
    v
}

#[test]
fn round_trip_identity_8x8() {
    let orig = test_image_8x8();
    let g = grid_from_f64(8, 8, &orig);
    let b = build_basis(8);
    let coeffs = dct2(&g, &b, &b);
    let back = idct2(&coeffs, &b, &b);
    let recon = grid_to_f64(&back);
    for i in 0..64 {
        assert!(
            (recon[i] - orig[i]).abs() <= 1e-3,
            "cell {}: {} vs {}",
            i,
            recon[i],
            orig[i]
        );
    }
}

#[test]
fn round_trip_identity_non_square() {
    let mut orig = Vec::new();
    for x in 0..5 {
        for y in 0..7 {
            orig.push((x * 31 + y * 13) as f64 % 256.0);
        }
    }
    let g = grid_from_f64(5, 7, &orig);
    let rb = build_basis(5);
    let cb = build_basis(7);
    let coeffs = dct2(&g, &rb, &cb);
    let back = idct2(&coeffs, &rb, &cb);
    let recon = grid_to_f64(&back);
    for i in 0..orig.len() {
        assert!((recon[i] - orig[i]).abs() <= 1e-3);
    }
}

#[test]
fn dc_property_constant_grid() {
    let orig = vec![77.0; 64];
    let g = grid_from_f64(8, 8, &orig);
    let b = build_basis(8);
    let coeffs = grid_to_f64(&dct2(&g, &b, &b));
    // C(0,0) = k * sqrt(N * M) = 77 * 8; all other coefficients near zero.
    assert!((coeffs[0] - 616.0).abs() <= 1e-3, "dc was {}", coeffs[0]);
    for i in 1..64 {
        assert!(coeffs[i].abs() <= 1e-3, "coefficient {} was {}", i, coeffs[i]);
    }
}

#[test]
fn dc_property_non_square() {
    let orig = vec![100.0; 160];
    let g = grid_from_f64(10, 16, &orig);
    let rb = build_basis(10);
    let cb = build_basis(16);
    let coeffs = grid_to_f64(&dct2(&g, &rb, &cb));
    let expected = 100.0 * (160.0f64).sqrt();
    assert!((coeffs[0] - expected).abs() <= 1e-2);
    for i in 1..160 {
        assert!(coeffs[i].abs() <= 1e-2);
    }
}

#[test]
fn quantizer_exact_multiples() {
    // Cells that are exact integer multiples of the tiled divisor are
    // quantized to exactly that multiplier.
    let t = QTable::standard();
    let mut data: Vec<i128> = Vec::new();
    for i in 0..16usize {
        for j in 0..16usize {
            let q = t.lookup(i, j);
            let k = (i + 2 * j) as i128;
            data.push(k * q * SCALE);
        }
    }
    let g = Grid::new(16, 16, data).unwrap();
    let out = quantize(&g, &t);
    for i in 0..16usize {
        for j in 0..16usize {
            let k = (i + 2 * j) as i128;
            assert_eq!(out.get(i, j), k * SCALE);
        }
    }
}

#[test]
fn quantizer_rounds_half_away_from_zero() {
    let t = QTable::uniform(1);
    let half = SCALE / 2;
    let g = Grid::new(
        1,
        4,
        vec![2 * SCALE + half, -(2 * SCALE + half), 3 * SCALE + half - 1, -half],
    )
    .unwrap();
    let out = quantize(&g, &t);
    assert_eq!(out.get(0, 0), 3 * SCALE);
    assert_eq!(out.get(0, 1), -3 * SCALE);
    assert_eq!(out.get(0, 2), 3 * SCALE);
    assert_eq!(out.get(0, 3), -SCALE);
}

#[test]
fn dimension_preservation_all_stages() {
    let mut orig = Vec::new();
    for i in 0..160 {
        orig.push((i % 251) as f64);
    }
    let g = grid_from_f64(10, 16, &orig);
    let rb = build_basis(10);
    let cb = build_basis(16);
    let t = QTable::standard();
    let coeffs = dct2(&g, &rb, &cb);
    assert_eq!(coeffs.num_rows(), 10);
    assert_eq!(coeffs.num_cols(), 16);
    let quantized = quantize(&coeffs, &t);
    assert_eq!(quantized.num_rows(), 10);
    assert_eq!(quantized.num_cols(), 16);
    let back = idct2(&quantized, &rb, &cb);
    assert_eq!(back.num_rows(), 10);
    assert_eq!(back.num_cols(), 16);
}

fn pipeline_sse(orig: &[f64], table: &QTable) -> f64 {
    let g = grid_from_f64(8, 8, orig);
    let b = build_basis(8);
    let out = compress(&g, table, &b, &b).expect("coefficients in range");
    let recon = grid_to_f64(&out);
    let mut sse = 0.0;
    for i in 0..64 {
        let clamped = recon[i].round().clamp(0.0, 255.0);
        let d = clamped - orig[i];
        sse += d * d;
    }
    sse
}

#[test]
fn monotonic_lossy_degradation() {
    // The all-ones table loses less than the standard table does.
    let orig = test_image_8x8();
    let standard = QTable::standard();
    let ones = QTable::uniform(1);
    let sse_standard = pipeline_sse(&orig, &standard);
    let sse_ones = pipeline_sse(&orig, &ones);
    assert!(
        sse_ones < sse_standard,
        "ones {} vs standard {}",
        sse_ones,
        sse_standard
    );
}

#[test]
fn end_to_end_checkerboard() {
    let mut pixels: Vec<u8> = Vec::new();
    for x in 0..8 {
        for y in 0..8 {
            pixels.push(if (x + y) % 2 == 0 { 0 } else { 255 });
        }
    }
    let g = grid_from_pixels(8, 8, &pixels).unwrap();
    let b = build_basis(8);
    let t = QTable::standard();
    let out = compress(&g, &t, &b, &b).expect("coefficients in range");
    let recon = grid_to_f64(&out);
    for i in 0..64 {
        assert!(
            recon[i] > -50.0 && recon[i] < 305.0,
            "cell {} out of range: {}",
            i,
            recon[i]
        );
    }
    // The quantizer divides without re-multiplying, so the reconstruction is
    // strongly attenuated: the cells that started at 0 stay close to 0.
    let clamped = pixels_from_grid(&out);
    for i in 0..64 {
        if pixels[i] == 0 {
            assert!(clamped[i] <= 80, "cell {} was {}", i, clamped[i]);
        }
    }
}

#[test]
fn forward_exact_on_trivial_grid() {
    // A 1x1 grid has alpha = 1 and cosine 1, so both transforms are exact
    // identities on it.
    let g = Grid::new(1, 1, vec![5 * SCALE]).unwrap();
    let b = build_basis(1);
    let coeffs = dct2(&g, &b, &b);
    assert_eq!(coeffs.get(0, 0), 5 * SCALE);
    let back = idct2(&coeffs, &b, &b);
    assert_eq!(back.get(0, 0), 5 * SCALE);
}

#[test]
fn compress_rejects_oversized_coefficients() {
    let g = Grid::new(2, 2, vec![MAX_MAG, MAX_MAG, MAX_MAG, MAX_MAG]).unwrap();
    let b = build_basis(2);
    let t = QTable::standard();
    assert!(compress(&g, &t, &b, &b).is_none());
}

#[test]
fn constructors_reject_bad_input() {
    // Grid data length must match the dimensions.
    assert!(Grid::new(2, 3, vec![0; 5]).is_none());
    assert!(Grid::new(5000, 1, vec![0; 5000]).is_none());
    // Quantization tables need 64 entries, all positive.
    assert!(QTable::new(vec![1; 63]).is_none());
    let mut entries = vec![1i128; 64];
    entries[10] = 0;
    assert!(QTable::new(entries).is_none());
    assert!(QTable::new(vec![1; 64]).is_some());
    // Basis tables are validated for length and range.
    assert!(DctBasis::new(2, vec![0; 4], vec![0, 1]).is_none());
    assert!(DctBasis::new(2, vec![0; 3], vec![1, 1]).is_none());
    assert!(DctBasis::new(2, vec![2 * SCALE, 0, 0, 0], vec![1, 1]).is_none());
    assert!(DctBasis::new(2, vec![0; 4], vec![1, 1]).is_some());
}

#[test]
fn standard_table_entries() {
    let expected: [[i128; 8]; 8] = [
        [16, 11, 10, 16, 24, 40, 51, 61],
        [12, 12, 14, 19, 26, 58, 60, 55],
        [14, 13, 16, 24, 40, 57, 69, 56],
        [14, 17, 22, 29, 51, 87, 80, 62],
        [18, 22, 37, 56, 68, 109, 103, 77],
        [24, 35, 55, 64, 81, 104, 113, 92],
        [49, 64, 78, 87, 103, 121, 120, 101],
        [72, 92, 95, 98, 112, 100, 103, 99],
    ];
    let t = QTable::standard();
    for i in 0..8usize {
        for j in 0..8usize {
            assert_eq!(t.lookup(i, j), expected[i][j]);
        }
    }
    // Tiled by modular indexing across larger grids.
    assert_eq!(t.lookup(8, 8), 16);
    assert_eq!(t.lookup(9, 10), 14);
    assert_eq!(t.lookup(17, 3), 19);
}

#[test]
fn pixel_conversions() {
    assert_eq!(sample_from_pixel(200), 200 * SCALE);
    assert_eq!(pixel_from_sample(200 * SCALE), 200);
    // Round half away from zero, then clamp.
    assert_eq!(pixel_from_sample(127 * SCALE + SCALE / 2), 128);
    assert_eq!(pixel_from_sample(-3 * SCALE), 0);
    assert_eq!(pixel_from_sample(300 * SCALE), 255);
    assert_eq!(pixel_from_sample(i128::MAX / 2), 255);
    assert_eq!(pixel_from_sample(i128::MIN / 2), 0);
}

#[test]
fn pixel_grid_round_trip() {
    let pixels: Vec<u8> = (0..48).map(|i| (i * 5) as u8).collect();
    let g = grid_from_pixels(6, 8, &pixels).unwrap();
    assert_eq!(g.num_rows(), 6);
    assert_eq!(g.num_cols(), 8);
    let back = pixels_from_grid(&g);
    assert_eq!(back, pixels);
    assert!(grid_from_pixels(6, 9, &pixels).is_none());
}

#[test]
fn empty_grid_passes_through() {
    let g = Grid::new(0, 0, Vec::new()).unwrap();
    let b = build_basis(0);
    let t = QTable::standard();
    let coeffs = dct2(&g, &b, &b);
    assert_eq!(coeffs.num_rows(), 0);
    assert_eq!(coeffs.num_cols(), 0);
    let out = compress(&g, &t, &b, &b).unwrap();
    assert_eq!(out.num_rows(), 0);
    assert_eq!(out.num_cols(), 0);
    assert!(pixels_from_grid(&out).is_empty());
}
