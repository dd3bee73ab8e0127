//! Facewave: a lossy codec for greyscale faces.
//!
//! The verified part of the codec: the adaptive arithmetic coder and its bit
//! input/output, the symbol-stream container, embedded zerotree coding, the
//! `.face` container format, and the integer half of the encode and decode
//! pipelines built from them.
use vstd::prelude::*;

pub mod channels;
pub mod cli;
pub mod format;
pub mod stages;

verus! {

/// The four sub-bands of one level of a two-dimensional wavelet transform.
#[derive(Debug, Clone, Copy, PartialEq, Eq, Structural)]
pub enum Band {
    LL,
    LH,
    HL,
    HH,
}

/// The alphabet of the zerotree coder: four dominant-pass symbols and two
/// refinement-pass symbols.
#[derive(Debug, Clone, Copy, PartialEq, Eq, Structural)]
pub enum Symbol {
    ZeroTree,
    IsolatedZero,
    Positive,
    Negative,
    RefineOne,
    RefineZero,
}

/// Quantised wavelet coefficients of one channel: `w` by `h` integers in
/// row-major order, the transform depth, and the quantiser step of every band
/// (as IEEE-754 single-precision bit patterns), three detail bands per level
/// and the final approximation band last.
#[derive(Debug, Clone)]
pub struct Quantised {
    pub w: usize,
    pub h: usize,
    pub levels: u8,
    pub scales: Vec<u32>,
    pub data: Vec<i16>,
}

} // verus!
