//! Static localization: the logic behind compile-time translation lookup.
//!
//! Translations are read from TOML documents, keyed by message and language,
//! resolved through per-language fallbacks, and turned into one arm per
//! configured language; a language switch then selects the arm at run time.

pub mod toml_model;
pub mod config;
pub mod translations;
pub mod resolve;
pub mod format;
pub mod arms;
pub mod catalog;
pub mod laws;
pub mod render;
pub mod paths;
pub mod file_order;
pub mod format_laws;
