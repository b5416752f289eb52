//! Decoder for ISO/IEC 8211 interchange files as used by IHO S-57 exchange sets.
//!
//! A file is a sequence of records. The first one, the data descriptive record,
//! declares for every field tag the names, types and widths of its subfields;
//! the records after it are decoded with that schema.

pub mod catalog;
pub mod cursor;
pub mod data_parser;
pub mod error;
pub mod record;
pub mod schema;
pub mod span;
pub mod text;
