//! The model's architecture hyperparameters.

use vstd::prelude::*;

verus! {

/// The architecture hyperparameters, as a checkpoint's `config.json` gives them.
#[derive(Debug, Clone)]
pub struct Config {
    pub num_mel_bins: usize,
    pub vocab_size: usize,
    pub d_model: usize,
    pub encoder_layers: usize,
    pub encoder_attention_heads: usize,
    pub decoder_layers: usize,
    pub decoder_attention_heads: usize,
    pub max_source_positions: usize,
    pub max_target_positions: usize,
}

} // verus!
