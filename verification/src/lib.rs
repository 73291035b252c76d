//! Statistical language models over a small text corpus.
//!
//! The crate builds a unigram and a bigram model from newline-delimited text:
//! it normalizes the text, counts token and token-pair frequencies (with
//! sentinel start and end markers around every non-empty line), samples random
//! sentences by an inverse-CDF walk over the sorted frequency table, and
//! produces the per-token probability terms from which a caller computes
//! perplexity.  All probabilities are kept as exact integer ratios
//! (count over total), so every count, table and sampling step is verified;
//! turning a ratio into a floating-point number is left to the caller.

pub mod assoc;
pub mod bigram;
pub mod ratio;
pub mod rng;
pub mod sample;
pub mod stream;
pub mod text;
pub mod unigram;
