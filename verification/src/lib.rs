//! A bag of words: the multiset of normalized word tokens found in texts.
//!
//! Words are separated by whitespace and consist of one or more letters;
//! punctuation around a word is removed, and a word that holds an uppercase
//! letter is recorded by its lowercase form.

pub mod unicode;
pub mod order;
pub mod text;
pub mod token;
pub mod bag;

pub use bag::Bbow;
