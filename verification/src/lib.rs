//! Phonetic matching over a pronunciation dictionary: rhymes, alliteration
//! and looser vowel/consonant resemblance, found by a cascading
//! wildcard-pattern scan and ranked by phoneme-count distance.

pub mod codec;
pub mod dictionary;
pub mod index;
pub mod matcher;
pub mod phoneme;
pub mod pattern;
pub mod ranker;
