//! Normalisation of Uzbek text: collation of words under the Uzbek alphabet,
//! numerals spoken as words, transliteration between the Latin and Cyrillic
//! scripts, and the guarding of reserved spans (addresses, links, handles,
//! telephone numbers) against all of these.
pub mod engine;
pub mod error;
pub mod utils;
pub mod uzbek;
