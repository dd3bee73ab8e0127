//! The stages of the codec that work on integers.
pub mod arithmetic;
pub mod bitio;
pub mod model;
pub mod pyramid;
pub mod rebuild;
pub mod roundtrip;
pub mod zerotree;
