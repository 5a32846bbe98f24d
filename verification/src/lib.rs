//! A verified translator for LMCL, a small line-based markup language.
//!
//! A source text is a sequence of statement lines. Each line either
//! declares a named value and emits an HTML element (`let`), stores a
//! named value without emitting anything (`store`), or emits an HTML
//! element without storing anything (`place`). Later statements may
//! refer to earlier stored values by name. Translation is a strict
//! two-stage pipeline: [`reader::store_valid_lines`] filters the raw
//! text down to the admissible statement lines, and
//! [`parser::parse_lines`] turns those lines into one HTML document.
//! Both stages abort on the first error.

pub mod error;
pub mod parser;
pub mod reader;
pub mod table;
pub mod text;
