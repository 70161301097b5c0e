//! Functionality with Uzbek-specific rules.
pub mod alphabetic;
pub mod corrector;
pub mod number;
pub mod transliterator;
