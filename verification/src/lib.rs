//! Ranked word-frequency analysis of one text: symbol stripping, ASCII-only
//! case folding, whitespace tokenization, stop-word removal, Snowball
//! stemming, occurrence counting, ranking by count descending with ties
//! broken by token descending, and a heuristic proper-noun filter. Every
//! stage carries a verified contract; the calls into outside crates stand
//! behind small trusted wrappers whose contracts name what they rely on.

pub mod chars;
pub mod evidence;
pub mod order;
pub mod pipeline;
pub mod rank;
pub mod report;
pub mod split;
pub mod stem;
pub mod stopwords;
pub mod strip;
