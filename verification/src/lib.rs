//! A bidirectional codec between a pipe-delimited clinical messaging format
//! (segments of fields, possibly with repetitions and components) and a flat
//! key-value representation, together with a rule-based validator for the
//! message header and required structure.
//!
//! The crate is organised leaves-first:
//! - [`escape`] holds the reserved-character escape codec and its round-trip
//!   laws;
//! - [`segments`] holds the structural parser and the flat-key encoder;
//! - [`json_hl7`] holds the flat-key decoder that rebuilds raw segment text;
//! - [`hl7_json`] drives the text-to-flat-map direction with optional
//!   validation;
//! - [`validation`] holds the fixed checklist evaluated over parsed segments;
//! - [`errors`] holds the error type shared by the fallible entry points;
//! - [`utils`] and [`text`] hold line-ending and character-level helpers.

pub mod errors;
pub mod escape;
pub mod hl7_json;
pub mod json_hl7;
pub mod round_trip;
pub mod segments;
pub mod text;
pub mod utils;
pub mod validation;
