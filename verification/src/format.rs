//! The `.face` container: a fixed header, the quantiser steps of both
//! channels and the coded payloads of both channels, all integers
//! little-endian.
//!
//! Layout: width and height (u32 each), the transform depth of the symmetric
//! and of the difference channel (u8 each), their zerotree start thresholds
//! (u16 each), then for each channel its steps (a u32 count and one u32 bit
//! pattern per step), then for each channel its payload (a u32 length and the
//! bytes).
use vstd::prelude::*;

verus! {

/// The fields of a `.face` file: width, height, the two transform depths, the
/// two start thresholds, the two lists of step bit patterns and the two coded
/// payloads.
pub type Unpacked = (usize, usize, u8, u8, u16, u16, Vec<u32>, Vec<u32>, Vec<u8>, Vec<u8>);

/// Why a byte string is not a `.face` file.
#[derive(Debug, Clone, Copy, PartialEq, Eq, Structural)]
pub enum FormatError {
    /// The bytes end before the fields they announce.
    Truncated,
}

/// The little-endian bytes of a `u16`.
pub open spec fn le16(x: u16) -> Seq<u8> {
    seq![(x % 256) as u8, (x / 256) as u8]
}

/// The little-endian bytes of a `u32`.
pub open spec fn le32(x: u32) -> Seq<u8> {
    seq![(x % 256) as u8, ((x / 256) % 256) as u8, ((x / 65536) % 256) as u8, (x / 16777216) as u8]
}

/// The `u16` stored little-endian at `at`.
pub open spec fn le16_at(b: Seq<u8>, at: int) -> u16 {
    (b[at] + 256 * b[at + 1]) as u16
}

/// The `u32` stored little-endian at `at`.
pub open spec fn le32_at(b: Seq<u8>, at: int) -> u32 {
    (b[at] + 256 * b[at + 1] + 65536 * b[at + 2] + 16777216 * b[at + 3]) as u32
}

/// The little-endian bytes of a list of `u32`, one after the other.
pub open spec fn le32_all(xs: Seq<u32>) -> Seq<u8>
    decreases xs.len(),
{
    if xs.len() == 0 {
        Seq::empty()
    } else {
        le32_all(xs.drop_last()) + le32(xs.last())
    }
}

/// A list of steps: its length as a `u32`, then the steps.
pub open spec fn scales_block(xs: Seq<u32>) -> Seq<u8> {
    le32(xs.len() as u32) + le32_all(xs)
}

/// A payload: its length as a `u32`, then the bytes.
pub open spec fn bytes_block(xs: Seq<u8>) -> Seq<u8> {
    le32(xs.len() as u32) + xs
}

/// The bytes of a `.face` file with the given fields.
pub open spec fn face_bytes(
    w: usize,
    h: usize,
    levels_s: u8,
    levels_d: u8,
    t0_s: u16,
    t0_d: u16,
    scales_s: Seq<u32>,
    scales_d: Seq<u32>,
    bytes_s: Seq<u8>,
    bytes_d: Seq<u8>,
) -> Seq<u8> {
    le32(w as u32) + le32(h as u32) + seq![levels_s, levels_d] + le16(t0_s) + le16(t0_d)
        + scales_block(scales_s) + scales_block(scales_d) + bytes_block(bytes_s) + bytes_block(bytes_d)
}

/// The list of steps stored at `at`, and the position after it, if the bytes
/// hold all of it.
pub open spec fn read_scales(b: Seq<u8>, at: int) -> Option<(Seq<u32>, int)> {
    if at + 4 > b.len() {
        None
    } else {
        let n = le32_at(b, at) as int;
        if at + 4 + 4 * n > b.len() {
            None
        } else {
            Some((Seq::new(n as nat, |i: int| le32_at(b, at + 4 + 4 * i)), at + 4 + 4 * n))
        }
    }
}

/// The payload stored at `at`, and the position after it, if the bytes hold
/// all of it.
pub open spec fn read_bytes(b: Seq<u8>, at: int) -> Option<(Seq<u8>, int)> {
    if at + 4 > b.len() {
        None
    } else {
        let n = le32_at(b, at) as int;
        if at + 4 + n > b.len() {
            None
        } else {
            Some((b.subrange(at + 4, at + 4 + n), at + 4 + n))
        }
    }
}

/// The fields of a `.face` file as stored in `b`, if `b` holds all of them;
/// bytes after the last payload are ignored.
pub open spec fn face_fields(b: Seq<u8>) -> Option<
    (usize, usize, u8, u8, u16, u16, Seq<u32>, Seq<u32>, Seq<u8>, Seq<u8>),
> {
    if b.len() < 14 {
        None
    } else {
        match read_scales(b, 14) {
            None => None,
            Some((scales_s, p1)) => match read_scales(b, p1) {
                None => None,
                Some((scales_d, p2)) => match read_bytes(b, p2) {
                    None => None,
                    Some((bytes_s, p3)) => match read_bytes(b, p3) {
                        None => None,
                        Some((bytes_d, _)) => Some(
                            (
                                le32_at(b, 0) as usize,
                                le32_at(b, 4) as usize,
                                b[8],
                                b[9],
                                le16_at(b, 10),
                                le16_at(b, 12),
                                scales_s,
                                scales_d,
                                bytes_s,
                                bytes_d,
                            ),
                        ),
                    },
                },
            },
        }
    }
}

/// The plain view of unpacked fields.
pub open spec fn unpacked_view(u: Unpacked) -> (usize, usize, u8, u8, u16, u16, Seq<u32>, Seq<u32>, Seq<u8>, Seq<u8>) {
    (u.0, u.1, u.2, u.3, u.4, u.5, u.6@, u.7@, u.8@, u.9@)
}

fn push_u16(out: &mut Vec<u8>, x: u16)
    ensures
        final(out)@ == old(out)@ + le16(x),
{
    out.push((x % 256) as u8);
    out.push((x / 256) as u8);
    assert(final(out)@ =~= old(out)@ + le16(x));
}

fn push_u32(out: &mut Vec<u8>, x: u32)
    ensures
        final(out)@ == old(out)@ + le32(x),
{
    out.push((x % 256) as u8);
    out.push(((x / 256) % 256) as u8);
    out.push(((x / 65536) % 256) as u8);
    out.push((x / 16777216) as u8);
    assert(final(out)@ =~= old(out)@ + le32(x));
}

fn read_u16(bytes: &[u8], at: usize) -> (x: u16)
    requires
        at + 2 <= bytes@.len(),
    ensures
        x == le16_at(bytes@, at as int),
{
    (bytes[at] as u16) + 256 * (bytes[at + 1] as u16)
}

fn read_u32(bytes: &[u8], at: usize) -> (x: u32)
    requires
        at + 4 <= bytes@.len(),
    ensures
        x == le32_at(bytes@, at as int),
{
    (bytes[at] as u32) + 256 * (bytes[at + 1] as u32) + 65536 * (bytes[at + 2] as u32) + 16777216 * (
    bytes[at + 3] as u32)
}

fn pack_scales(out: &mut Vec<u8>, scales: &[u32])
    ensures
        final(out)@ == old(out)@ + scales_block(scales@),
{
    push_u32(out, scales.len() as u32);
    let ghost start = out@;
    let mut i: usize = 0;
    while i < scales.len()
        invariant
            i <= scales@.len(),
            out@ == start + le32_all(scales@.take(i as int)),
        decreases scales@.len() - i,
    {
        push_u32(out, scales[i]);
        assert(scales@.take(i + 1).drop_last() =~= scales@.take(i as int));
        i += 1;
        assert(out@ =~= start + le32_all(scales@.take(i as int)));
    }
    assert(scales@.take(i as int) =~= scales@);
    assert(final(out)@ =~= old(out)@ + scales_block(scales@));
}

fn unpack_scales(bytes: &[u8], at: usize) -> (r: Result<(Vec<u32>, usize), FormatError>)
    ensures
        match read_scales(bytes@, at as int) {
            Some((xs, next)) => r matches Ok((v, p)) && v@ == xs && p == next,
            None => r == Err::<(Vec<u32>, usize), FormatError>(FormatError::Truncated),
        },
{
    let len = bytes.len();
    if at > len || len - at < 4 {
        return Err(FormatError::Truncated);
    }
    let n = read_u32(bytes, at) as usize;
    let start = at + 4;
    if n > (len - start) / 4 {
        proof {
            assert(start + 4 * n > len) by (nonlinear_arith)
                requires
                    n > (len - start) / 4,
                    start <= len,
            ;
        }
        return Err(FormatError::Truncated);
    }
    proof {
        assert(4 * n <= len - start) by (nonlinear_arith)
            requires
                n <= (len - start) / 4,
                start <= len,
        ;
    }
    let mut scales: Vec<u32> = Vec::new();
    let mut i: usize = 0;
    while i < n
        invariant
            i <= n,
            len == bytes@.len(),
            start + 4 * n <= len,
            scales@ == Seq::new(i as nat, |k: int| le32_at(bytes@, start + 4 * k)),
        decreases n - i,
    {
        let x = read_u32(bytes, start + 4 * i);
        scales.push(x);
        i += 1;
        assert(scales@ =~= Seq::new(i as nat, |k: int| le32_at(bytes@, start + 4 * k)));
    }
    Ok((scales, start + 4 * n))
}

fn pack_bytes(out: &mut Vec<u8>, bytes: &[u8])
    ensures
        final(out)@ == old(out)@ + bytes_block(bytes@),
{
    push_u32(out, bytes.len() as u32);
    let ghost start = out@;
    let mut i: usize = 0;
    while i < bytes.len()
        invariant
            i <= bytes@.len(),
            out@ == start + bytes@.take(i as int),
        decreases bytes@.len() - i,
    {
        out.push(bytes[i]);
        i += 1;
        assert(out@ =~= start + bytes@.take(i as int));
    }
    assert(bytes@.take(i as int) =~= bytes@);
    assert(final(out)@ =~= old(out)@ + bytes_block(bytes@));
}

fn unpack_bytes(bytes: &[u8], at: usize) -> (r: Result<(Vec<u8>, usize), FormatError>)
    ensures
        match read_bytes(bytes@, at as int) {
            Some((xs, next)) => r matches Ok((v, p)) && v@ == xs && p == next,
            None => r == Err::<(Vec<u8>, usize), FormatError>(FormatError::Truncated),
        },
{
    let len = bytes.len();
    if at > len || len - at < 4 {
        return Err(FormatError::Truncated);
    }
    let n = read_u32(bytes, at) as usize;
    let start = at + 4;
    if n > len - start {
        return Err(FormatError::Truncated);
    }
    let mut out: Vec<u8> = Vec::new();
    let mut i: usize = 0;
    while i < n
        invariant
            i <= n,
            len == bytes@.len(),
            start + n <= len,
            out@ == bytes@.subrange(start as int, start + i),
        decreases n - i,
    {
        out.push(bytes[start + i]);
        i += 1;
        assert(out@ =~= bytes@.subrange(start as int, start + i));
    }
    Ok((out, start + n))
}

/// Writes a `.face` file. Width, height and the lengths are stored as `u32`
/// (reduced modulo 2^32).
pub fn pack(
    w: usize,
    h: usize,
    levels_s: u8,
    levels_d: u8,
    t0_s: u16,
    t0_d: u16,
    scales_s: &[u32],
    scales_d: &[u32],
    bytes_s: &[u8],
    bytes_d: &[u8],
) -> (out: Vec<u8>)
    ensures
        out@ == face_bytes(
            w,
            h,
            levels_s,
            levels_d,
            t0_s,
            t0_d,
            scales_s@,
            scales_d@,
            bytes_s@,
            bytes_d@,
        ),
{
    let mut out: Vec<u8> = Vec::new();
    push_u32(&mut out, w as u32);
    push_u32(&mut out, h as u32);
    out.push(levels_s);
    out.push(levels_d);
    push_u16(&mut out, t0_s);
    push_u16(&mut out, t0_d);
    pack_scales(&mut out, scales_s);
    pack_scales(&mut out, scales_d);
    pack_bytes(&mut out, bytes_s);
    pack_bytes(&mut out, bytes_d);
    assert(out@ =~= face_bytes(
        w,
        h,
        levels_s,
        levels_d,
        t0_s,
        t0_d,
        scales_s@,
        scales_d@,
        bytes_s@,
        bytes_d@,
    ));
    out
}

/// Reads the fields of a `.face` file; `Truncated` when the bytes end before
/// a field they announce. Bytes after the last payload are ignored.
pub fn unpack(bytes: &[u8]) -> (r: Result<Unpacked, FormatError>)
    ensures
        match face_fields(bytes@) {
            Some(f) => r matches Ok(u) && unpacked_view(u) == f,
            None => r == Err::<Unpacked, FormatError>(FormatError::Truncated),
        },
{
    if bytes.len() < 14 {
        return Err(FormatError::Truncated);
    }
    let w = read_u32(bytes, 0) as usize;
    let h = read_u32(bytes, 4) as usize;
    let levels_s = bytes[8];
    let levels_d = bytes[9];
    let t0_s = read_u16(bytes, 10);
    let t0_d = read_u16(bytes, 12);
    let (scales_s, at) = unpack_scales(bytes, 14)?;
    let (scales_d, at) = unpack_scales(bytes, at)?;
    let (bytes_s, at) = unpack_bytes(bytes, at)?;
    let (bytes_d, _) = unpack_bytes(bytes, at)?;
    Ok((w, h, levels_s, levels_d, t0_s, t0_d, scales_s, scales_d, bytes_s, bytes_d))
}

proof fn lemma_le32_at(b: Seq<u8>, at: int, x: u32)
    requires
        0 <= at,
        at + 4 <= b.len(),
        b.subrange(at, at + 4) == le32(x),
    ensures
        le32_at(b, at) == x,
{
    assert(b[at] == le32(x)[0]);
    assert(b[at + 1] == le32(x)[1]);
    assert(b[at + 2] == le32(x)[2]);
    assert(b[at + 3] == le32(x)[3]);
    assert(x == (x % 256) + 256 * ((x / 256) % 256) + 65536 * ((x / 65536) % 256) + 16777216 * (x
        / 16777216)) by (nonlinear_arith)
        requires
            x <= 0xFFFF_FFFF,
    ;
}

proof fn lemma_le16_at(b: Seq<u8>, at: int, x: u16)
    requires
        0 <= at,
        at + 2 <= b.len(),
        b.subrange(at, at + 2) == le16(x),
    ensures
        le16_at(b, at) == x,
{
    assert(b[at] == le16(x)[0]);
    assert(b[at + 1] == le16(x)[1]);
}

proof fn lemma_le32_all(xs: Seq<u32>)
    ensures
        le32_all(xs).len() == 4 * xs.len(),
        forall|i: int, k: int|
            0 <= i < xs.len() && 0 <= k < 4 ==> #[trigger] le32_all(xs)[4 * i + k] == le32(xs[i])[k],
    decreases xs.len(),
{
    if xs.len() > 0 {
        let p = xs.drop_last();
        lemma_le32_all(p);
        assert forall|i: int, k: int| 0 <= i < xs.len() && 0 <= k < 4 implies #[trigger] le32_all(xs)[4 * i
            + k] == le32(xs[i])[k] by {
            if i < xs.len() - 1 {
                assert(p[i] == xs[i]);
            }
        }
    }
}

/// A list of steps written as a block reads back whole.
proof fn lemma_read_scales(b: Seq<u8>, at: int, xs: Seq<u32>)
    requires
        0 <= at,
        xs.len() <= 0xFFFF_FFFF,
        at + scales_block(xs).len() <= b.len(),
        b.subrange(at, at + scales_block(xs).len()) == scales_block(xs),
    ensures
        read_scales(b, at) == Some((xs, at + scales_block(xs).len())),
{
    lemma_le32_all(xs);
    let blk = scales_block(xs);
    assert(b.subrange(at, at + 4) =~= le32(xs.len() as u32)) by {
        assert forall|k: int| 0 <= k < 4 implies #[trigger] b.subrange(at, at + 4)[k] == le32(
            xs.len() as u32,
        )[k] by {
            assert(b[at + k] == blk[k]);
        }
    }
    lemma_le32_at(b, at, xs.len() as u32);
    let got = Seq::new(xs.len(), |i: int| le32_at(b, at + 4 + 4 * i));
    assert forall|i: int| 0 <= i < xs.len() implies #[trigger] got[i] == xs[i] by {
        let q = at + 4 + 4 * i;
        assert(b.subrange(q, q + 4) =~= le32(xs[i])) by {
            assert forall|k: int| 0 <= k < 4 implies #[trigger] b.subrange(q, q + 4)[k] == le32(xs[i])[k] by {
                assert(b[q + k] == blk[4 + (4 * i + k)]);
                assert(le32_all(xs)[4 * i + k] == le32(xs[i])[k]);
            }
        }
        lemma_le32_at(b, q, xs[i]);
    }
    assert(got =~= xs);
}

/// A payload written as a block reads back whole.
proof fn lemma_read_bytes(b: Seq<u8>, at: int, xs: Seq<u8>)
    requires
        0 <= at,
        xs.len() <= 0xFFFF_FFFF,
        at + bytes_block(xs).len() <= b.len(),
        b.subrange(at, at + bytes_block(xs).len()) == bytes_block(xs),
    ensures
        read_bytes(b, at) == Some((xs, at + bytes_block(xs).len())),
{
    let blk = bytes_block(xs);
    assert(b.subrange(at, at + 4) =~= le32(xs.len() as u32)) by {
        assert forall|k: int| 0 <= k < 4 implies #[trigger] b.subrange(at, at + 4)[k] == le32(
            xs.len() as u32,
        )[k] by {
            assert(b[at + k] == blk[k]);
        }
    }
    lemma_le32_at(b, at, xs.len() as u32);
    assert(b.subrange(at + 4, at + 4 + xs.len()) =~= xs) by {
        assert forall|k: int| 0 <= k < xs.len() implies #[trigger] b.subrange(at + 4, at + 4 + xs.len())[k]
            == xs[k] by {
            assert(b[at + 4 + k] == blk[4 + k]);
        }
    }
}

/// Reading a `.face` file gives back the fields it was written with, as long
/// as width, height and every length fit the file's 32-bit fields.
#[verifier::spinoff_prover]
pub proof fn lemma_unpack_pack(
    w: usize,
    h: usize,
    levels_s: u8,
    levels_d: u8,
    t0_s: u16,
    t0_d: u16,
    scales_s: Seq<u32>,
    scales_d: Seq<u32>,
    bytes_s: Seq<u8>,
    bytes_d: Seq<u8>,
)
    requires
        w <= 0xFFFF_FFFF,
        h <= 0xFFFF_FFFF,
        scales_s.len() <= 0xFFFF_FFFF,
        scales_d.len() <= 0xFFFF_FFFF,
        bytes_s.len() <= 0xFFFF_FFFF,
        bytes_d.len() <= 0xFFFF_FFFF,
    ensures
        face_fields(
            face_bytes(w, h, levels_s, levels_d, t0_s, t0_d, scales_s, scales_d, bytes_s, bytes_d),
        ) == Some((w, h, levels_s, levels_d, t0_s, t0_d, scales_s, scales_d, bytes_s, bytes_d)),
{
    let b = face_bytes(w, h, levels_s, levels_d, t0_s, t0_d, scales_s, scales_d, bytes_s, bytes_d);
    let bs1 = scales_block(scales_s);
    let bs2 = scales_block(scales_d);
    let bb1 = bytes_block(bytes_s);
    let bb2 = bytes_block(bytes_d);
    let p1: int = 14 + bs1.len() as int;
    let p2: int = p1 + bs2.len() as int;
    let p3: int = p2 + bb1.len() as int;
    let p4: int = p3 + bb2.len() as int;
    assert(b.len() == p4);
    assert(b.subrange(0, 4) =~= le32(w as u32));
    assert(b.subrange(4, 8) =~= le32(h as u32));
    assert(b.subrange(10, 12) =~= le16(t0_s));
    assert(b.subrange(12, 14) =~= le16(t0_d));
    assert(b.subrange(14, p1) =~= bs1);
    assert(b.subrange(p1, p2) =~= bs2);
    assert(b.subrange(p2, p3) =~= bb1);
    assert(b.subrange(p3, p4) =~= bb2);
    lemma_le32_at(b, 0, w as u32);
    lemma_le32_at(b, 4, h as u32);
    lemma_le16_at(b, 10, t0_s);
    lemma_le16_at(b, 12, t0_d);
    lemma_read_scales(b, 14, scales_s);
    lemma_read_scales(b, p1, scales_d);
    lemma_read_bytes(b, p2, bytes_s);
    lemma_read_bytes(b, p3, bytes_d);
}

/// Four bytes read as a `u32` and written back give the same bytes.
proof fn lemma_le32_of_at(b: Seq<u8>, at: int)
    requires
        0 <= at,
        at + 4 <= b.len(),
    ensures
        b.subrange(at, at + 4) == le32(le32_at(b, at)),
{
    let b0: int = b[at] as int;
    let b1: int = b[at + 1] as int;
    let b2: int = b[at + 2] as int;
    let b3: int = b[at + 3] as int;
    let x: int = b0 + 256 * b1 + 65536 * b2 + 16777216 * b3;
    assert(0 <= x <= 0xFFFF_FFFF);
    assert(x % 256 == b0 && (x / 256) % 256 == b1 && (x / 65536) % 256 == b2 && x / 16777216 == b3)
        by (nonlinear_arith)
        requires
            0 <= b0 < 256,
            0 <= b1 < 256,
            0 <= b2 < 256,
            0 <= b3 < 256,
            x == b0 + 256 * b1 + 65536 * b2 + 16777216 * b3,
    ;
    assert(b.subrange(at, at + 4) =~= le32(le32_at(b, at)));
}

/// Two bytes read as a `u16` and written back give the same bytes.
proof fn lemma_le16_of_at(b: Seq<u8>, at: int)
    requires
        0 <= at,
        at + 2 <= b.len(),
    ensures
        b.subrange(at, at + 2) == le16(le16_at(b, at)),
{
    let b0: int = b[at] as int;
    let b1: int = b[at + 1] as int;
    let x: int = b0 + 256 * b1;
    assert(x % 256 == b0 && x / 256 == b1) by (nonlinear_arith)
        requires
            0 <= b0 < 256,
            0 <= b1 < 256,
            x == b0 + 256 * b1,
    ;
    assert(b.subrange(at, at + 2) =~= le16(le16_at(b, at)));
}

proof fn lemma_scales_read_back(b: Seq<u8>, at: int)
    requires
        0 <= at,
        read_scales(b, at) is Some,
    ensures
        ({
            let (xs, next) = read_scales(b, at)->0;
            &&& next == at + scales_block(xs).len()
            &&& next <= b.len()
            &&& b.subrange(at, next) == scales_block(xs)
        }),
{
    let (xs, next) = read_scales(b, at)->0;
    let n: int = le32_at(b, at) as int;
    lemma_le32_all(xs);
    lemma_le32_of_at(b, at);
    assert forall|i: int| 0 <= i < n implies #[trigger] b.subrange(at + 4 + 4 * i, at + 8 + 4 * i) == le32(xs[i]) by {
        lemma_le32_of_at(b, at + 4 + 4 * i);
    }
    assert(b.subrange(at, next) =~= scales_block(xs)) by {
        assert forall|j: int| 0 <= j < next - at implies #[trigger] b.subrange(at, next)[j] == scales_block(xs)[j] by {
            if j < 4 {
                assert(b.subrange(at, at + 4)[j] == le32(n as u32)[j]);
            } else {
                let i = (j - 4) / 4;
                let k = (j - 4) % 4;
                assert(j - 4 == 4 * i + k);
                assert(b.subrange(at + 4 + 4 * i, at + 8 + 4 * i)[k] == le32(xs[i])[k]);
                assert(le32_all(xs)[4 * i + k] == le32(xs[i])[k]);
            }
        }
    }
}

proof fn lemma_bytes_read_back(b: Seq<u8>, at: int)
    requires
        0 <= at,
        read_bytes(b, at) is Some,
    ensures
        ({
            let (xs, next) = read_bytes(b, at)->0;
            &&& next == at + bytes_block(xs).len()
            &&& next <= b.len()
            &&& b.subrange(at, next) == bytes_block(xs)
        }),
{
    let (xs, next) = read_bytes(b, at)->0;
    lemma_le32_of_at(b, at);
    assert(b.subrange(at, next) =~= bytes_block(xs)) by {
        assert forall|j: int| 0 <= j < next - at implies #[trigger] b.subrange(at, next)[j] == bytes_block(xs)[j] by {
            if j < 4 {
                assert(b.subrange(at, at + 4)[j] == le32(xs.len() as u32)[j]);
            }
        }
    }
}

/// A byte string from which `unpack` reads fields starts with the `.face`
/// file of exactly those fields: `unpack` reads what `pack` writes and
/// nothing else.
pub proof fn lemma_pack_unpack(b: Seq<u8>)
    requires
        face_fields(b) is Some,
    ensures
        ({
            let (w, h, levels_s, levels_d, t0_s, t0_d, scales_s, scales_d, bytes_s, bytes_d) = face_fields(b)->0;
            let f = face_bytes(w, h, levels_s, levels_d, t0_s, t0_d, scales_s, scales_d, bytes_s, bytes_d);
            &&& f.len() <= b.len()
            &&& b.subrange(0, f.len() as int) == f
        }),
{
    let (w, h, levels_s, levels_d, t0_s, t0_d, scales_s, scales_d, bytes_s, bytes_d) = face_fields(b)->0;
    let f = face_bytes(w, h, levels_s, levels_d, t0_s, t0_d, scales_s, scales_d, bytes_s, bytes_d);
    lemma_scales_read_back(b, 14);
    let p1 = (read_scales(b, 14)->0).1;
    lemma_scales_read_back(b, p1);
    let p2 = (read_scales(b, p1)->0).1;
    lemma_bytes_read_back(b, p2);
    let p3 = (read_bytes(b, p2)->0).1;
    lemma_bytes_read_back(b, p3);
    let p4 = (read_bytes(b, p3)->0).1;
    lemma_le32_of_at(b, 0);
    lemma_le32_of_at(b, 4);
    lemma_le16_of_at(b, 10);
    lemma_le16_of_at(b, 12);
    assert((le32_at(b, 0) as usize) as u32 == le32_at(b, 0));
    assert((le32_at(b, 4) as usize) as u32 == le32_at(b, 4));
    assert(f.len() == p4);
    assert(b.subrange(0, p4) =~= f) by {
        assert forall|j: int| 0 <= j < p4 implies #[trigger] b.subrange(0, p4)[j] == f[j] by {
            if j < 4 {
                assert(b.subrange(0, 4)[j] == b[j]);
            } else if j < 8 {
                assert(b.subrange(4, 8)[j - 4] == b[j]);
            } else if j < 10 {
            } else if j < 12 {
                assert(b.subrange(10, 12)[j - 10] == b[j]);
            } else if j < 14 {
                assert(b.subrange(12, 14)[j - 12] == b[j]);
            } else if j < p1 {
                assert(b.subrange(14, p1)[j - 14] == b[j]);
            } else if j < p2 {
                assert(b.subrange(p1, p2)[j - p1] == b[j]);
            } else if j < p3 {
                assert(b.subrange(p2, p3)[j - p2] == b[j]);
            } else {
                assert(b.subrange(p3, p4)[j - p3] == b[j]);
            }
        }
    }
}

} // verus!
