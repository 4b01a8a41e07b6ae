//! Choice of the compression backend from the CPU features at hand.
use vstd::prelude::*;
use crate::spec::compress_blocks;
use crate::{soft, two_lane};

verus! {

/// The compression backends, in order of preference.
#[derive(Debug, PartialEq, Eq, Structural, Clone, Copy)]
pub enum Backend {
    ShaNi,
    Avx2,
    Soft,
}

/// Picks the preferred backend. The SHA extensions win outright; only when
/// they are missing is the AVX2/BMI2 probe run, so on SHA-NI hosts the probe
/// is never called (its precondition is only demanded when `sha_ni` is false).
pub fn select(sha_ni: bool, avx2_bmi2: impl FnOnce() -> bool) -> (backend: Backend)
    requires
        !sha_ni ==> call_requires(avx2_bmi2, ()),
    ensures
        sha_ni ==> backend == Backend::ShaNi,
        !sha_ni ==> (backend == Backend::Avx2 && call_ensures(avx2_bmi2, (), true)) || (
        backend == Backend::Soft && call_ensures(avx2_bmi2, (), false)),
{
    if sha_ni {
        Backend::ShaNi
    } else if avx2_bmi2() {
        Backend::Avx2
    } else {
        Backend::Soft
    }
}

/// Compresses the blocks, first to last, with the chosen backend: the
/// two-lane compressor for `Avx2`, the scalar one otherwise (this crate has
/// no compressor built on the SHA extensions, so `ShaNi` runs the scalar
/// one too). Every backend gives the same result.
pub fn compress_with(backend: Backend, state: &mut [u32; 8], blocks: &[[u8; 64]])
    ensures
        final(state)@ == compress_blocks(old(state)@, blocks@),
{
    match backend {
        Backend::Avx2 => two_lane::compress(state, blocks),
        Backend::ShaNi => soft::compress(state, blocks),
        Backend::Soft => soft::compress(state, blocks),
    }
}

} // verus!
