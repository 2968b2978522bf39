//! Syllabification and word splitting for Lojban text.
//!
//! The crate splits Lojban text into *units* (runs of cmavo followed by an
//! optional pre-brivla, or cmevla), checking the phonotactics of each syllable
//! on the way.

pub mod data;
pub mod jvofli;
pub mod phonology;
pub mod prewords;
pub mod settings;
pub mod syllables;
pub mod text;
pub mod units;
