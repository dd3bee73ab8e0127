use facewave::channels::{decode_channels, encode_channels, plane_size_fits, shape_fits, DecodeError};
use facewave::format::pack;
use facewave::stages::arithmetic::encode_symbols;
use facewave::{Quantised, Symbol};

fn plane(w: usize, h: usize, levels: u8, seed: i32) -> Quantised {
    let data: Vec<i16> = (0..(w * h) as i32).map(|i| ((i * 29 + seed) % 41 - 20) as i16 * ((i % 3) as i16 + 1)).collect();
    Quantised { w, h, levels, scales: vec![0x3f80_0000; 3 * levels as usize + 1], data }
}

#[test]
fn channels_come_back_exactly() {
    for &(w, h) in &[(8usize, 4usize), (9, 4), (16, 16)] {
        let s = plane(w / 2, h, 2, 3);
        let d = plane(w / 2, h, 1, 11);
        let bytes = encode_channels(w, h, &s, &d);
        let (s2, d2) = match decode_channels(&bytes) {
            Ok(planes) => planes,
            Err(e) => panic!("decode failed: {e:?}"),
        };
        assert_eq!((s2.w, s2.h, s2.levels), (w / 2, h, 2));
        assert_eq!((d2.w, d2.h, d2.levels), (w / 2, h, 1));
        assert_eq!(s2.scales, s.scales);
        assert_eq!(d2.scales, d.scales);
        assert_eq!(s2.data, s.data);
        assert_eq!(d2.data, d.data);
    }
}

#[test]
fn decode_reports_each_error() {
    let s = plane(4, 4, 1, 5);
    let bytes = encode_channels(8, 4, &s, &s);
    assert!(matches!(decode_channels(&bytes[..10]), Err(DecodeError::Truncated)));

    let good = encode_symbols(&[Symbol::ZeroTree]);
    let bad = [0x80u8];
    let file = pack(8, 4, 1, 1, 0, 0, &[], &[], &bad, &good);
    assert!(matches!(decode_channels(&file), Err(DecodeError::CorruptSymmetric)));
    let file = pack(8, 4, 1, 1, 0, 0, &[], &[], &good, &bad);
    assert!(matches!(decode_channels(&file), Err(DecodeError::CorruptDifference)));
    let file = pack(8, 4, 200, 1, 0, 0, &[], &[], &good, &good);
    assert!(matches!(decode_channels(&file), Err(DecodeError::Shape)));
}

#[test]
fn shape_and_size_checks() {
    assert!(shape_fits(64, 128, 4));
    assert!(!shape_fits(usize::MAX, 2, 1));
    assert!(!shape_fits(4, 4, 64));
    assert!(plane_size_fits(1 << 20));
    assert!(!plane_size_fits(usize::MAX));
}
