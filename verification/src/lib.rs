//! Morphological analysis of Japanese text over MeCab-compatible binary
//! dictionaries: dictionary readers, lattice construction and best-path
//! extraction, with machine-checked contracts.

pub mod bytes;
pub mod ucs2;
pub mod dic;
pub mod lattice;
pub mod mecabrc;
pub mod nbest;
pub mod tokenizer;
