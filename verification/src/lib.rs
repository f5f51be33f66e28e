//! A small verified text search index over a fixed corpus of comic metadata
//! records, ranked against free-text queries by a term-frequency /
//! inverse-document-frequency model with a character-histogram fallback tier.
//!
//! The corpus model lives in [`comic`], tokenization in [`tokenize`], the
//! query engine in [`search`], and the snapshot format in [`codec`]; the
//! integer kernels behind the scoring stand in [`numeric`].

pub mod codec;
pub mod comic;
pub mod numeric;
pub mod search;
pub mod strutil;
pub mod table;
pub mod tokenize;
pub mod tokenmap;
pub mod utils;
