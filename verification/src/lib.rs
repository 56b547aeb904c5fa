//! Finds every way to choose a fixed number of letter-content keys from a
//! candidate word pool so that the chosen keys are pairwise disjoint: no two
//! of them share a letter.  The classic instance asks for five 5-letter words
//! spanning 25 distinct letters.
//!
//! - [`letter_set`] holds the bitmask encoding of a word's distinct letters.
//! - [`word`] pairs a source string with its letter content.
//! - [`index`] groups candidate words by identical letter content (anagrams).
//! - [`search`] enumerates the disjoint combinations of keys.

pub mod index;
pub mod letter_set;
pub mod search;
pub mod word;
