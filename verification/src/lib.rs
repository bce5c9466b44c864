//! Kiku: an automatic speech recognition system built as an encoder-decoder
//! Transformer over a log-Mel frontend.
//!
//! This crate holds the parts of Kiku whose behaviour is stated and proved:
//! the evaluation metrics (`wer`) and corpus rules (`eval`), the byte-level
//! BPE tokenizer tables and decoding (`tokenizer`), the decoding grammar,
//! segmentation and windowing decisions (`decode`), the model configuration
//! (`model`), the audio constants (`audio`), and the English and
//! language-agnostic text normalizers (`normalize`, with the number machine
//! in `numbers`), over the character utilities of `text`.

pub mod audio;
pub mod decode;
pub mod eval;
pub mod model;
pub mod normalize;
pub mod numbers;
pub mod text;
pub mod tokenizer;
pub mod wer;
