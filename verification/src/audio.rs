//! The audio frontend's fixed parameters: 16 kHz input, 25 ms windows
//! (`N_FFT` samples) every 10 ms (`HOP_LENGTH` samples), in 30-second chunks.

use vstd::prelude::*;

verus! {

pub const SAMPLE_RATE: usize = 16_000;

pub const N_FFT: usize = 400;

pub const HOP_LENGTH: usize = 160;

pub const CHUNK_SECONDS: usize = 30;

/// Samples in one 30-second chunk.
pub const N_SAMPLES: usize = 480_000;

/// Spectrogram frames in one chunk.
pub const N_FRAMES: usize = 3_000;

/// The chunk constants agree with the rates they are derived from.
pub proof fn lemma_chunk_constants()
    ensures
        N_SAMPLES == SAMPLE_RATE * CHUNK_SECONDS,
        N_FRAMES == N_SAMPLES / HOP_LENGTH,
{
}

} // verus!
