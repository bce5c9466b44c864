# kiku

Kiku is a speech recognition system built as an encoder-decoder Transformer
over a log-Mel frontend, in the style of Whisper: 30-second windows of 16 kHz
audio are encoded, and the decoder predicts text interleaved with special
tokens for language, task and timestamps.

The crate is written in Verus. Its library (`src/`) states the behaviour of
its logic in `requires`/`ensures` contracts and proves it:

- `text` — whitespace, word splitting and trimming over characters;
- `wer` — edit distance (proved equal to the Levenshtein distance) and the
  pooled word and character error counts;
- `tokenizer` — the byte-level alphabet (a proved bijection), building the
  tokenizer from its vocabulary and added tokens, decoding, language tags;
- `decode` — the decoder prompt, the timestamp grammar as a logit mask (with
  its laws: an early first timestamp, paired and non-decreasing timestamps),
  splitting a window into timed segments, and windowing over long audio;
- `numbers` — the vocabulary of spelled-out numbers and the word-by-word
  machine that writes them as digits;
- `normalize` — the English and language-agnostic text normalizers;
- `eval` — transcript records, FLEURS language codes and utterance selection
  for the evaluation programs;
- `audio`, `model` — the frontend constants and the model configuration.

Calls into `regex`, `unicode-normalization`, `unicode-properties` and std
that the proofs cannot see inside go through small trusted wrappers whose
contracts name their results.

`app/` holds what stays outside the proofs: the floating-point frontend, the
candle model, the sampling loop, file loading, and the command-line
transcription and evaluation programs. `tests/` exercises the library on
concrete values.
