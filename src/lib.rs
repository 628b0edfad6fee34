//! Text statistics in the style of `wc`: line, word and character counts,
//! and word-frequency tables with a deterministic top-K ranking.

pub mod frequency;
pub mod order;
pub mod text;
