//! Utilities around a verified TZif (binary time-zone information format)
//! decoder: the decoder itself, an in-memory byte source for it, a keyed
//! container, and byte-oriented string helpers.

pub mod env;
pub mod fmt_bridge;
pub mod index_map;
pub mod stream;
pub mod string;
pub mod tzif;
