//! Finds the translation keys that a program uses and keeps its translation
//! files in step with them.
//!
//! The scanner walks the token tree of a source file, finds each call of the
//! translation marker and records the key it names, with its default value and
//! the places where it occurs. The reconciler merges the keys found into the
//! completed, pending and stale translations of every locale, without losing
//! a translator's work, and lays out the files that hold the outcome.

pub mod assoc;
pub mod cargo;
pub mod extractor;
pub mod generator;
pub mod naming;
pub mod table;
pub mod text;
pub mod token;
