use facewave::stages::zerotree::{
    build, children_of, level_and_band_of, scale_index, symbol_count, unbuild, unbuild_split,
};
use facewave::{Band, Quantised, Symbol};

#[test]
fn scale_index_orders_bands_by_level() {
    assert_eq!(scale_index(1, Band::LH), 0);
    assert_eq!(scale_index(1, Band::HL), 1);
    assert_eq!(scale_index(1, Band::HH), 2);
    assert_eq!(scale_index(2, Band::LH), 3);
    assert_eq!(scale_index(3, Band::HH), 8);
    assert_eq!(scale_index(2, Band::LL), 6);
    assert_eq!(scale_index(0, Band::LL), 0);
}

#[test]
fn level_and_band_of_an_8x8_pyramid() {
    let (w, h) = (8, 8);
    assert_eq!(level_and_band_of(5, 1, w, h, 2), (1, Band::LH));
    assert_eq!(level_and_band_of(1, 5, w, h, 2), (1, Band::HL));
    assert_eq!(level_and_band_of(7, 7, w, h, 2), (1, Band::HH));
    assert_eq!(level_and_band_of(2, 0, w, h, 2), (2, Band::LH));
    assert_eq!(level_and_band_of(0, 3, w, h, 2), (2, Band::HL));
    assert_eq!(level_and_band_of(3, 2, w, h, 2), (2, Band::HH));
    assert_eq!(level_and_band_of(1, 1, w, h, 2), (2, Band::LL));
    assert_eq!(level_and_band_of(0, 0, w, h, 0), (0, Band::LL));
}

#[test]
fn children_across_levels() {
    let (w, h) = (8, 8);
    // approximation band: the same spot in the three coarsest detail bands
    assert_eq!(children_of(1, 0, w, h, 2), vec![(3, 0), (1, 2), (3, 2)]);
    // level 2 detail: four children at level 1
    assert_eq!(children_of(2, 1, w, h, 2), vec![(4, 2), (5, 2), (4, 3), (5, 3)]);
    // level 1 detail: no children
    assert!(children_of(6, 6, w, h, 2).is_empty());
}

#[test]
fn unbuild_keeps_signs() {
    let symbols = vec![Symbol::ZeroTree, Symbol::Positive, Symbol::Negative, Symbol::RefineOne];
    let back = unbuild(&symbols, 2, 2, 1, vec![1, 2, 3, 4]);
    assert_eq!((back.w, back.h, back.levels), (2, 2, 1));
    assert_eq!(back.scales, vec![1, 2, 3, 4]);
    assert_eq!(back.data, vec![0, 1, -1, 0]);
    let iso = unbuild(&[Symbol::IsolatedZero], 1, 1, 0, vec![]);
    assert_eq!(iso.data, vec![0]);
}

fn split_streams(symbols: &[Symbol]) -> (Vec<Symbol>, Vec<Symbol>) {
    symbols.iter().copied().partition(|s| !matches!(s, Symbol::RefineOne | Symbol::RefineZero))
}

#[test]
fn ezw_passes_of_a_small_plane() {
    let q = Quantised { w: 2, h: 2, levels: 1, scales: vec![1, 2, 3, 4], data: vec![0, 7, -3, 1] };
    let (t0, symbols) = build(&q);
    // largest magnitude 7: passes at 4, 2 and 1
    assert_eq!(t0, 4);
    assert_eq!(
        symbols,
        vec![
            Symbol::IsolatedZero, Symbol::Positive, Symbol::ZeroTree, Symbol::ZeroTree,
            Symbol::IsolatedZero, Symbol::Negative, Symbol::ZeroTree, Symbol::RefineOne,
            Symbol::IsolatedZero, Symbol::Positive, Symbol::RefineOne, Symbol::RefineOne,
        ]
    );
    let (dominant, refinement) = split_streams(&symbols);
    let back = unbuild_split(&dominant, &refinement, t0, 2, 2, 1, vec![1, 2, 3, 4]);
    assert_eq!((back.w, back.h, back.levels), (2, 2, 1));
    assert_eq!(back.scales, vec![1, 2, 3, 4]);
    assert_eq!(back.data, q.data);
}

#[test]
fn ezw_all_zero_plane_codes_nothing() {
    let q = Quantised { w: 4, h: 2, levels: 1, scales: vec![], data: vec![0; 8] };
    let (t0, symbols) = build(&q);
    assert_eq!(t0, 0);
    assert!(symbols.is_empty());
    let back = unbuild_split(&[], &[], 0, 4, 2, 1, vec![]);
    assert_eq!(back.data, vec![0; 8]);
}

#[test]
fn ezw_rebuilds_extreme_coefficients_exactly() {
    let data: Vec<i16> = vec![
        -32768, 32767, 5, -5, 0, 1, -1, 2, 300, -300, 0, 0, 64, -63, 7, 0,
    ];
    let q = Quantised { w: 4, h: 4, levels: 2, scales: vec![9; 7], data: data.clone() };
    let (t0, symbols) = build(&q);
    assert_eq!(t0, 32768);
    let (dominant, refinement) = split_streams(&symbols);
    let back = unbuild_split(&dominant, &refinement, t0, 4, 4, 2, vec![9; 7]);
    assert_eq!(back.data, data);
}

#[test]
fn ezw_rebuild_across_levels() {
    // an 8x8 plane with a spread of magnitudes, coded at each depth
    let data: Vec<i16> = (0..64i32).map(|i| (((i * 37) % 23) - 11) as i16 * ((i % 5) as i16 + 1)).collect();
    for levels in 0..=3u8 {
        let q = Quantised { w: 8, h: 8, levels, scales: vec![], data: data.clone() };
        let (t0, symbols) = build(&q);
        assert_eq!(t0, 32);
        let (dominant, refinement) = split_streams(&symbols);
        let back = unbuild_split(&dominant, &refinement, t0, 8, 8, levels, vec![]);
        assert_eq!(back.data, data, "levels {levels}");
    }
}

#[test]
fn symbol_count_is_area() {
    assert_eq!(symbol_count(64, 32, 3), 2048);
    assert_eq!(symbol_count(0, 5, 1), 0);
}

#[test]
fn children_lie_one_level_finer_in_the_same_band() {
    let (w, h, levels) = (16, 8, 3);
    for y in 0..h {
        for x in 0..w {
            let (l, b) = level_and_band_of(x, y, w, h, levels);
            let kids = children_of(x, y, w, h, levels);
            let bands: Vec<(u8, Band)> = kids.iter().map(|&(cx, cy)| level_and_band_of(cx, cy, w, h, levels)).collect();
            if b == Band::LL {
                assert_eq!(bands, vec![(3, Band::LH), (3, Band::HL), (3, Band::HH)]);
            } else if l >= 2 {
                assert_eq!(bands, vec![(l - 1, b); 4]);
            } else {
                assert!(kids.is_empty());
            }
        }
    }
}

#[test]
fn every_detail_coefficient_has_exactly_one_parent() {
    let (w, h, levels) = (16, 8, 3);
    let mut claimed = vec![0usize; w * h];
    for y in 0..h {
        for x in 0..w {
            for (cx, cy) in children_of(x, y, w, h, levels) {
                assert!(cx < w && cy < h);
                claimed[cy * w + cx] += 1;
            }
        }
    }
    for y in 0..h {
        for x in 0..w {
            let expected = if x < (w >> levels) && y < (h >> levels) { 0 } else { 1 };
            assert_eq!(claimed[y * w + x], expected, "({x}, {y})");
        }
    }
}

#[test]
fn scale_index_numbers_the_bands_one_to_one() {
    for levels in 1..=4u8 {
        let mut seen: Vec<usize> = Vec::new();
        for level in 1..=levels {
            for band in [Band::LH, Band::HL, Band::HH] {
                seen.push(scale_index(level, band));
            }
        }
        seen.push(scale_index(levels, Band::LL));
        let expected: Vec<usize> = (0..=3 * levels as usize).collect();
        assert_eq!(seen, expected);
    }
}
