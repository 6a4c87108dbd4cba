//! A small vocabulary-memorization library.
//!
//! It parses a flat word-list text into word/translation pairs, keeps the
//! session's progress (cursor, review-later queue, removed set), encodes and
//! decodes that progress to a textual record, and decides each step of the
//! interactive session. All of it is verified; the interactive shell around
//! it lives outside this crate.

pub mod codec;
pub mod progress;
pub mod session;
pub mod words;
