//! Extraction of a ranked palette of dominant colors from a decoded
//! RGB pixel buffer: quantization, deduplication, gradient merging,
//! ranking and perceptual reweighting.

pub mod color;
pub mod working;
pub mod rank;
pub mod gradient;
pub mod extract;

pub use color::{isqrt, prefer_saturated, round, Color};
pub use extract::{adjust_weights, extract, rank_and_truncate, ExtractError, Options, MAX_PIXELS};
pub use gradient::{find_adjacent, reduce_gradients};
pub use rank::sort_by_weight;
pub use working::{accumulate, search_hex};
