//! Verified core of an adversarial word-guessing solver.
//!
//! The library computes, for a fixed pool of five-letter candidate words,
//! the feedback a guess would receive against each candidate, partitions the
//! pool into feedback-indexed buckets, and searches for guess sequences that
//! force the adversary (who always keeps the largest bucket alive) down to a
//! single candidate within two or three guesses.

pub mod bitset;
pub mod buckets;
pub mod catalog;
pub mod hints;
pub mod search;
pub mod selector;
pub mod wordlist;
