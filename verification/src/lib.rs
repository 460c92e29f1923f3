//! A multinomial naive Bayes text classifier for labeled news documents.
//!
//! Documents (label + title + description) are tokenized into lowercase
//! alphabetic words, per-class word frequencies are accumulated by training,
//! and held-out documents are classified by maximum a-posteriori probability.
//! Scores are compared exactly, as rational numbers, using a small verified
//! big-integer type, so the classification result is a proven function of the
//! trained model and the document.

pub mod tokenizer;
pub mod wordmap;
pub mod model;
pub mod bignum;
pub mod classify;
pub mod eval;
