use facewave::format::{pack, unpack, FormatError};

fn bits(xs: &[f32]) -> Vec<u32> {
    xs.iter().map(|x| x.to_bits()).collect()
}

#[test]
fn pack_unpack_roundtrip() {
    let scales_s = vec![5.0f32, 5.0, 5.0, 2.5];
    let scales_d = vec![50.0f32, 50.0, 50.0, 25.0, 12.5, 6.25, 3.125];
    let s = vec![1u8, 2, 3, 4, 5];
    let d = vec![9u8, 8];

    let packed = pack(128, 128, 1, 2, 64, 256, &bits(&scales_s), &bits(&scales_d), &s, &d);
    let (w, h, levels_s, levels_d, t0_s, t0_d, out_scales_s, out_scales_d, out_s, out_d) =
        unpack(&packed).unwrap();

    assert_eq!((w, h, levels_s, levels_d), (128, 128, 1, 2));
    assert_eq!((t0_s, t0_d), (64, 256));
    assert_eq!(out_scales_s, bits(&scales_s));
    assert_eq!(out_scales_d, bits(&scales_d));
    assert_eq!(out_s, s);
    assert_eq!(out_d, d);
}

#[test]
fn pack_exact_layout() {
    let packed = pack(0x0102_0304, 7, 3, 4, 0x0506, 0x0708, &[0xAABB_CCDD], &[], &[0x11], &[]);
    assert_eq!(
        packed,
        vec![
            0x04, 0x03, 0x02, 0x01, // width
            7, 0, 0, 0, // height
            3, 4, // depths
            0x06, 0x05, 0x08, 0x07, // thresholds
            1, 0, 0, 0, 0xDD, 0xCC, 0xBB, 0xAA, // steps of the symmetric channel
            0, 0, 0, 0, // steps of the difference channel
            1, 0, 0, 0, 0x11, // symmetric payload
            0, 0, 0, 0, // difference payload
        ]
    );
}

#[test]
fn unpack_rejects_truncated_files() {
    let packed = pack(8, 8, 1, 1, 0, 0, &[1, 2], &[3], &[4, 5, 6], &[7]);
    for cut in 0..packed.len() {
        assert_eq!(unpack(&packed[..cut]), Err(FormatError::Truncated), "cut at {cut}");
    }
    // bytes after the last payload are ignored
    let mut longer = packed.clone();
    longer.extend_from_slice(&[1, 2, 3]);
    assert_eq!(unpack(&longer), unpack(&packed));
    // a step count far past the end
    let mut bad = packed[..14].to_vec();
    bad.extend_from_slice(&[0xFF, 0xFF, 0xFF, 0xFF]);
    assert_eq!(unpack(&bad), Err(FormatError::Truncated));
}
