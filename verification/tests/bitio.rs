use facewave::stages::bitio::{put_varint, take_varint, BitReader, BitWriter};

#[test]
fn bits_pack_most_significant_first() {
    let mut w = BitWriter::new();
    for &b in &[true, false, true, true, false, false, false, true, true, true] {
        w.put(b);
    }
    assert_eq!(w.finish(), vec![0b1011_0001, 0b1100_0000]);
    assert_eq!(BitWriter::new().finish(), Vec::<u8>::new());
}

#[test]
fn bits_read_back_and_zero_past_end() {
    let bytes = [0b1011_0001u8];
    let mut r = BitReader::new(&bytes);
    let got: Vec<bool> = (0..12).map(|_| r.get()).collect();
    assert_eq!(
        got,
        vec![true, false, true, true, false, false, false, true, false, false, false, false]
    );
}

#[test]
fn varint_exact_bytes_and_roundtrip() {
    let mut out = Vec::new();
    put_varint(&mut out, 300);
    assert_eq!(out, vec![0xAC, 0x02]);
    for &n in &[0u64, 1, 127, 128, 16383, 16384, u32::MAX as u64, u64::MAX] {
        let mut out = vec![9u8];
        put_varint(&mut out, n);
        out.push(0xFF);
        let mut at = 1usize;
        assert_eq!(take_varint(&out, &mut at), n);
        assert_eq!(at, out.len() - 1);
    }
    let mut out = Vec::new();
    put_varint(&mut out, u64::MAX);
    assert_eq!(out, vec![0xFF, 0xFF, 0xFF, 0xFF, 0xFF, 0xFF, 0xFF, 0xFF, 0xFF, 0x01]);
}

#[test]
fn varint_wider_than_64_bits_keeps_low_bits() {
    // the tenth byte carries only the top bit of a u64
    let bytes = [0x80, 0x80, 0x80, 0x80, 0x80, 0x80, 0x80, 0x80, 0x80, 0x03];
    let mut at = 0usize;
    assert_eq!(take_varint(&bytes, &mut at), 1u64 << 63);
    assert_eq!(at, 10);
}
