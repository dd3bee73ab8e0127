//! The integer half of the `.face` pipelines: the two coefficient planes of an
//! image (the symmetric and the antisymmetric channel) zerotree-coded,
//! arithmetic-coded and packed into a file, and read back from one.
use vstd::prelude::*;
use vstd::arithmetic::power2::{pow2, lemma2_to64, lemma_pow2_unfold};
use crate::format::{face_bytes, face_fields, lemma_unpack_pack, pack, unpack};
use crate::stages::arithmetic::{
    container_ok, container_streams, decode_symbols, encode_symbols, symbol_container,
    symbol_container_ok, MAX_SYMBOLS,
};
use crate::stages::rebuild::lemma_rebuild_exact;
use crate::stages::roundtrip::lemma_symbol_container_roundtrip;
use crate::stages::zerotree::{
    build, enc_dom, enc_ref, ezw_symbols, lemma_start_threshold, parents, rebuilt, start_threshold,
    unbuild_split,
};
use crate::{Quantised, Symbol};

verus! {

/// Why a `.face` file could not be read back into its two planes.
#[derive(Debug, Clone, Copy, PartialEq, Eq, Structural)]
pub enum DecodeError {
    /// The bytes end before the fields they announce.
    Truncated,
    /// The announced dimensions or depths are too large to address.
    Shape,
    /// The symmetric channel's payload is not a symbol container.
    CorruptSymmetric,
    /// The antisymmetric channel's payload is not a symbol container.
    CorruptDifference,
}

/// A plane as plain values: width, height, depth, steps and coefficients.
pub type PlaneView = (usize, usize, u8, Seq<u32>, Seq<i16>);

/// The plain view of a plane.
pub open spec fn plane_view(q: Quantised) -> PlaneView {
    (q.w, q.h, q.levels, q.scales@, q.data@)
}

/// A `w` by `h` plane of `levels` levels can be addressed and its parent
/// table built.
pub open spec fn shape_ok(w: usize, h: usize, levels: u8) -> bool {
    &&& w * h <= usize::MAX
    &&& 2 * w + 1 <= usize::MAX
    &&& 2 * h + 1 <= usize::MAX
    &&& (levels as u32) < usize::BITS
}

/// A plane of `n` coefficients is small enough that the symbols of all its
/// passes (at most 32 per coefficient) fit in memory and in the coder's limit.
pub open spec fn plane_fits(n: nat) -> bool {
    &&& 32 * n <= MAX_SYMBOLS
    &&& 32 * n <= usize::MAX
}

/// The zerotree symbols of a plane, from its start threshold down to 1.
pub open spec fn plane_symbols(q: Quantised) -> Seq<Symbol> {
    ezw_symbols(q.data@, parents(q.w, q.h, q.levels, q.data@.len()), start_threshold(q.data@))
}

/// The `.face` bytes of a `w` by `h` image whose channels have the planes `s`
/// and `d`.
pub open spec fn channels_bytes(w: usize, h: usize, s: Quantised, d: Quantised) -> Seq<u8> {
    face_bytes(
        w,
        h,
        s.levels,
        d.levels,
        start_threshold(s.data@) as u16,
        start_threshold(d.data@) as u16,
        s.scales@,
        d.scales@,
        symbol_container(plane_symbols(s)),
        symbol_container(plane_symbols(d)),
    )
}

/// The plane rebuilt from a channel's fields.
pub open spec fn plane_from(w: usize, h: usize, levels: u8, scales: Seq<u32>, t0: u16, payload: Seq<u8>) -> PlaneView {
    let (dom, rf) = container_streams(payload);
    (w, h, levels, scales, rebuilt(dom, rf, t0 as nat, w, h, levels))
}

/// The two planes read back from the bytes of a `.face` file, each half the
/// file's width wide, or why they cannot be.
pub open spec fn channels_of(b: Seq<u8>) -> Result<(PlaneView, PlaneView), DecodeError> {
    match face_fields(b) {
        None => Err(DecodeError::Truncated),
        Some((w, h, ls, ld, ts, td, ss, sd, bs, bd)) => {
            let hw = (w / 2) as usize;
            if !(shape_ok(hw, h, ls) && shape_ok(hw, h, ld)) {
                Err(DecodeError::Shape)
            } else if !container_ok(bs) {
                Err(DecodeError::CorruptSymmetric)
            } else if !container_ok(bd) {
                Err(DecodeError::CorruptDifference)
            } else {
                Ok((plane_from(hw, h, ls, ss, ts, bs), plane_from(hw, h, ld, sd, td, bd)))
            }
        }
    }
}

/// Whether a `w` by `h` plane of `levels` levels meets `shape_ok`.
pub fn shape_fits(w: usize, h: usize, levels: u8) -> (ok: bool)
    ensures
        ok == shape_ok(w, h, levels),
{
    let area = w.checked_mul(h);
    area.is_some() && w <= (usize::MAX - 1) / 2 && h <= (usize::MAX - 1) / 2 && (levels as u32)
        < usize::BITS
}

/// Whether a plane of `n` coefficients meets `plane_fits`.
pub fn plane_size_fits(n: usize) -> (ok: bool)
    ensures
        ok == plane_fits(n as nat),
{
    n <= usize::MAX / 32 && (n as u64) <= MAX_SYMBOLS / 32
}

/// Every pass of the coder emits at most one dominant and one refinement
/// symbol per coefficient.
proof fn lemma_pass_lens(data: Seq<i16>, par: Seq<Option<usize>>, t: int, k: nat)
    ensures
        enc_dom(data, par, t, k).1.len() <= k,
        enc_ref(data, t, k).len() <= k,
    decreases k,
{
    if k > 0 {
        lemma_pass_lens(data, par, t, (k - 1) as nat);
    }
}

/// The number of passes from threshold `t` down to 1.
spec fn passes(t: nat) -> nat
    decreases t,
{
    if t == 0 {
        0
    } else {
        1 + passes(t / 2)
    }
}

proof fn lemma_passes(t: nat, k: nat)
    requires
        t < pow2(k),
    ensures
        passes(t) <= k,
    decreases k,
{
    if t > 0 {
        if k == 0 {
            lemma2_to64();
        } else {
            lemma_pow2_unfold(k);
            lemma_passes(t / 2, (k - 1) as nat);
        }
    }
}

proof fn lemma_symbols_len(data: Seq<i16>, par: Seq<Option<usize>>, t: nat)
    ensures
        ezw_symbols(data, par, t).len() <= 2 * data.len() * passes(t),
    decreases t,
{
    if t > 0 {
        lemma_symbols_len(data, par, t / 2);
        lemma_pass_lens(data, par, t as int, data.len());
        let n = data.len();
        let p = passes(t / 2);
        assert(2 * n + 2 * n * p == 2 * n * (1 + p)) by (nonlinear_arith);
    }
}

/// A plane that fits has at most 32 symbols per coefficient.
proof fn lemma_plane_symbols_len(q: Quantised)
    ensures
        plane_symbols(q).len() <= 32 * q.data@.len(),
{
    let n = q.data@.len();
    let t = start_threshold(q.data@);
    lemma_start_threshold(q.data@, 0);
    lemma2_to64();
    lemma_passes(t, 16);
    lemma_symbols_len(q.data@, parents(q.w, q.h, q.levels, n), t);
    assert(2 * n * passes(t) <= 32 * n) by (nonlinear_arith)
        requires
            passes(t) <= 16,
    ;
}

/// Zerotree-codes the planes `s` (symmetric channel) and `d` (antisymmetric
/// channel), arithmetic-codes their symbols and packs them into the bytes of
/// a `.face` file for a `w` by `h` image.
pub fn encode_channels(w: usize, h: usize, s: &Quantised, d: &Quantised) -> (out: Vec<u8>)
    requires
        s.data@.len() == s.w * s.h,
        d.data@.len() == d.w * d.h,
        shape_ok(s.w, s.h, s.levels),
        shape_ok(d.w, d.h, d.levels),
        plane_fits(s.data@.len()),
        plane_fits(d.data@.len()),
    ensures
        out@ == channels_bytes(w, h, *s, *d),
{
    let (t0_s, symbols_s) = build(s);
    let (t0_d, symbols_d) = build(d);
    proof {
        lemma_plane_symbols_len(*s);
        lemma_plane_symbols_len(*d);
    }
    let bytes_s = encode_symbols(symbols_s.as_slice());
    let bytes_d = encode_symbols(symbols_d.as_slice());
    pack(
        w,
        h,
        s.levels,
        d.levels,
        t0_s,
        t0_d,
        s.scales.as_slice(),
        d.scales.as_slice(),
        bytes_s.as_slice(),
        bytes_d.as_slice(),
    )
}

/// Reads the two planes back from the bytes of a `.face` file: the fields,
/// then each channel's symbol container, then the zerotree rebuild at half
/// the file's width.
#[verifier::spinoff_prover]
pub fn decode_channels(bytes: &[u8]) -> (r: Result<(Quantised, Quantised), DecodeError>)
    ensures
        match channels_of(bytes@) {
            Ok((a, b)) => r matches Ok((s, d)) && plane_view(s) == a && plane_view(d) == b,
            Err(e) => r == Err::<(Quantised, Quantised), DecodeError>(e),
        },
{
    let (w, h, levels_s, levels_d, t0_s, t0_d, scales_s, scales_d, bytes_s, bytes_d) = match unpack(bytes) {
        Ok(u) => u,
        Err(_) => {
            return Err(DecodeError::Truncated);
        },
    };
    let half_w = w / 2;
    if !(shape_fits(half_w, h, levels_s) && shape_fits(half_w, h, levels_d)) {
        return Err(DecodeError::Shape);
    }
    if !symbol_container_ok(bytes_s.as_slice()) {
        return Err(DecodeError::CorruptSymmetric);
    }
    if !symbol_container_ok(bytes_d.as_slice()) {
        return Err(DecodeError::CorruptDifference);
    }
    let streams_s = decode_symbols(bytes_s.as_slice());
    let streams_d = decode_symbols(bytes_d.as_slice());
    let s = unbuild_split(
        streams_s.dominant.as_slice(),
        streams_s.refinement.as_slice(),
        t0_s,
        half_w,
        h,
        levels_s,
        scales_s,
    );
    let d = unbuild_split(
        streams_d.dominant.as_slice(),
        streams_d.refinement.as_slice(),
        t0_d,
        half_w,
        h,
        levels_d,
        scales_d,
    );
    Ok((s, d))
}

/// Reading back the file that `encode_channels` writes gives both planes back
/// exactly, for planes half the image's width wide that fit the coder, as
/// long as the width, the height, the step lists and the payloads fit the
/// file's 32-bit fields.
#[verifier::spinoff_prover]
pub proof fn lemma_channels_roundtrip(w: usize, h: usize, s: Quantised, d: Quantised)
    requires
        s.w == w / 2,
        d.w == w / 2,
        s.h == h,
        d.h == h,
        s.data@.len() == s.w * s.h,
        d.data@.len() == d.w * d.h,
        shape_ok(s.w, s.h, s.levels),
        shape_ok(d.w, d.h, d.levels),
        plane_fits(s.data@.len()),
        plane_fits(d.data@.len()),
        w <= 0xFFFF_FFFF,
        h <= 0xFFFF_FFFF,
        s.scales@.len() <= 0xFFFF_FFFF,
        d.scales@.len() <= 0xFFFF_FFFF,
        symbol_container(plane_symbols(s)).len() <= 0xFFFF_FFFF,
        symbol_container(plane_symbols(d)).len() <= 0xFFFF_FFFF,
    ensures
        channels_of(channels_bytes(w, h, s, d)) == Ok::<(PlaneView, PlaneView), DecodeError>(
            (plane_view(s), plane_view(d)),
        ),
{
    let ts = start_threshold(s.data@);
    let td = start_threshold(d.data@);
    lemma_start_threshold(s.data@, 0);
    lemma_start_threshold(d.data@, 0);
    let cs = symbol_container(plane_symbols(s));
    let cd = symbol_container(plane_symbols(d));
    lemma_unpack_pack(w, h, s.levels, d.levels, ts as u16, td as u16, s.scales@, d.scales@, cs, cd);
    lemma_plane_symbols_len(s);
    lemma_plane_symbols_len(d);
    lemma_symbol_container_roundtrip(plane_symbols(s));
    lemma_symbol_container_roundtrip(plane_symbols(d));
    lemma_rebuild_exact(s.data@, s.w, s.h, s.levels, ts);
    lemma_rebuild_exact(d.data@, d.w, d.h, d.levels, td);
    assert(((w / 2) as usize) == s.w);
    assert((ts as u16) as nat == ts && (td as u16) as nat == td);
}

} // verus!
