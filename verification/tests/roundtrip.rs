// The zerotree and arithmetic stages against real coefficient planes: the
// floating-point stages in front of them are reproduced here, so the planes
// are those the encoder actually produces.

use facewave::stages::zerotree::{build, scale_index, unbuild_split};
use facewave::stages::arithmetic::{decode_symbols, encode_symbols, symbol_container_ok};
use facewave::{Band, Quantised, Symbol};

struct Plane {
    w: usize,
    h: usize,
    data: Vec<f32>,
}

fn split(img: &Plane) -> (Plane, Plane) {
    let (w, h) = (img.w, img.h);
    let w_half = w / 2;
    let sqrt2 = 2.0_f32.sqrt();
    let mut s_data = Vec::new();
    let mut d_data = Vec::new();
    for row in img.data.chunks(w) {
        let mirror: Vec<f32> = row.iter().rev().copied().collect();
        s_data.extend(row.iter().zip(mirror.iter()).take(w_half).map(|(a, b)| (a + b) / sqrt2));
        d_data.extend(row.iter().zip(mirror.iter()).take(w_half).map(|(a, b)| (a - b) / sqrt2));
    }
    (Plane { w: w_half, h, data: s_data }, Plane { w: w_half, h, data: d_data })
}

fn haar_1d(row: &[f32]) -> Vec<f32> {
    let sqrt2 = 2.0_f32.sqrt();
    let mut out: Vec<f32> = row.chunks_exact(2).map(|p| (p[0] + p[1]) / sqrt2).collect();
    out.extend(row.chunks_exact(2).map(|p| (p[0] - p[1]) / sqrt2));
    out
}

fn haar_2d_single_level(data: &[f32], w: usize, h: usize) -> Vec<f32> {
    let mut rows: Vec<f32> = Vec::with_capacity(w * h);
    for row in data.chunks(w) {
        rows.extend(haar_1d(row));
    }
    let mut out = rows.clone();
    for x in 0..w {
        let col: Vec<f32> = (0..h).map(|y| rows[y * w + x]).collect();
        for (y, v) in haar_1d(&col).into_iter().enumerate() {
            out[y * w + x] = v;
        }
    }
    out
}

fn haar(img: &Plane, levels: u8) -> Vec<f32> {
    let mut data = img.data.clone();
    let (mut cw, mut ch) = (img.w, img.h);
    for _ in 0..levels {
        let block: Vec<f32> =
            (0..ch).flat_map(|y| data[y * img.w..y * img.w + cw].iter().copied()).collect();
        let t = haar_2d_single_level(&block, cw, ch);
        for (y, row) in t.chunks(cw).enumerate() {
            data[y * img.w..y * img.w + cw].copy_from_slice(row);
        }
        cw /= 2;
        ch /= 2;
    }
    data
}

fn quantise_quadrant(data: &[f32], out: &mut [i16], full_w: usize, x0: usize, y0: usize, x1: usize, y1: usize, step: f32) {
    for y in y0..y1 {
        for x in x0..x1 {
            let i = y * full_w + x;
            out[i] = (data[i] / step).round() as i16;
        }
    }
}

fn quantise(data: &[f32], w: usize, h: usize, levels: u8, scales: Vec<f32>) -> Quantised {
    let mut out = vec![0i16; w * h];
    let (mut cw, mut ch) = (w, h);
    for level in 1..=levels {
        let (hw, hh) = (cw / 2, ch / 2);
        quantise_quadrant(data, &mut out, w, hw, 0, cw, hh, scales[scale_index(level, Band::LH)]);
        quantise_quadrant(data, &mut out, w, 0, hh, hw, ch, scales[scale_index(level, Band::HL)]);
        quantise_quadrant(data, &mut out, w, hw, hh, cw, ch, scales[scale_index(level, Band::HH)]);
        cw = hw;
        ch = hh;
    }
    quantise_quadrant(data, &mut out, w, 0, 0, cw, ch, scales[scale_index(levels, Band::LL)]);
    Quantised { w, h, levels, scales: scales.iter().map(|s| s.to_bits()).collect(), data: out }
}

/// A few images with different amounts of structure, so the symbol streams
/// differ in shape rather than just in length.
fn test_images(w: usize, h: usize) -> Vec<(&'static str, Plane)> {
    let gradient: Vec<f32> = (0..w * h).map(|i| (i % w + i / w) as f32 / (w + h) as f32).collect();

    let checker: Vec<f32> = (0..w * h)
        .map(|i| if ((i % w) / 4 + (i / w) / 4) % 2 == 0 { 0.2 } else { 0.8 })
        .collect();

    // deterministic pseudo-noise: almost nothing gets pruned
    let noise: Vec<f32> = (0..w * h)
        .map(|i| {
            let x = (i as u64).wrapping_mul(6364136223846793005).wrapping_add(1442695040888963407);
            ((x >> 33) % 1000) as f32 / 1000.0
        })
        .collect();

    let flat = vec![0.5f32; w * h];

    vec![
        ("gradient", Plane { w, h, data: gradient }),
        ("checker", Plane { w, h, data: checker }),
        ("noise", Plane { w, h, data: noise }),
        ("flat", Plane { w, h, data: flat }),
    ]
}

fn is_refinement(s: &Symbol) -> bool {
    matches!(s, Symbol::RefineOne | Symbol::RefineZero)
}

#[test]
fn real_symbol_streams_roundtrip_across_configurations() {
    let (w, h) = (64usize, 64usize);
    let mut total_symbols = 0usize;

    for (name, img) in test_images(w, h) {
        for levels in 1..=4u8 {
            for &step in &[0.015625f32, 0.0625, 0.25, 1.0] {
                let (s, _) = split(&img);
                let coeffs = haar(&s, levels);
                let q = quantise(&coeffs, s.w, s.h, levels, vec![step; 3 * levels as usize + 1]);
                let (t0, symbols) = build(&q);

                let bytes = encode_symbols(&symbols);
                assert!(symbol_container_ok(&bytes));
                let streams = decode_symbols(&bytes);

                let dominant: Vec<Symbol> = symbols.iter().copied().filter(|s| !is_refinement(s)).collect();
                let refinement: Vec<Symbol> = symbols.iter().copied().filter(|s| is_refinement(s)).collect();
                let case = format!("{name} levels={levels} step={step}");
                assert_eq!(streams.dominant, dominant, "dominant stream differs: {case}");
                assert_eq!(streams.refinement, refinement, "refinement stream differs: {case}");

                // and the streams still rebuild the exact coefficients
                let back = unbuild_split(&streams.dominant, &streams.refinement, t0, q.w, q.h, levels, q.scales.clone());
                assert_eq!(back.data, q.data, "coefficients differ: {case}");

                total_symbols += symbols.len();
            }
        }
    }

    // guards against the loop silently coding nothing
    assert!(total_symbols > 100_000, "only {total_symbols} symbols exercised");
}
