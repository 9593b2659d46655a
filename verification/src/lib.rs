//! A streaming lookup engine for a large, semi-structured markup dictionary.
//!
//! The library scans a dictionary document once, recognizes record
//! boundaries and their sub-fields on the fly, matches each record's
//! headwords against a caller-supplied list of requested keys, and
//! assembles only the matching records into structured form.

pub mod assembler;
pub mod config;
pub mod display;
pub mod entry;
pub mod error;
pub mod matcher;
pub mod scan;
pub mod scanner;
pub mod entry_id;
pub mod text;

pub use scan::with_jmdict_entries;
pub use scan::with_jmdict_gz_entries;
