//! A small configuration-file library: a line-oriented `key=value` text
//! format with optional per-key inline comments, parsed into an in-memory
//! mapping and serialized back deterministically (keys in lexicographic
//! order), together with the typed window-settings and shortcut schemas
//! that are stored in that format.

pub mod document;
pub mod format;
pub mod settings;
pub mod shortcuts;
pub mod store;
pub mod text;
