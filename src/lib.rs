//! Parse `.env` text into ordered entries and expand `$VAR`-style
//! placeholders against a base key/value store.
//!
//! [`EnvLoader::new`] targets an in-memory store. Reading files is left to
//! the caller, which hands the loader what each read gave.
use vstd::prelude::*;

mod env;
mod error;
mod laws;
mod loader;
mod model;
mod parser;
mod substitution;
mod text;

pub use env::TargetEnv;
pub use error::{Error, ParseError, ParseErrorKind};
pub use loader::{convention_paths, parse_file_text, EnvLoader, FileRead, SourceFile};
pub use model::{Encoding, Entry, KeyParsingMode, LoadReport, SubstitutionMode};
pub use parser::{
    parse_bytes, parse_bytes_with_mode, parse_reader, parse_reader_with_mode, parse_str,
    parse_str_with_mode, parse_str_with_source, MAX_INPUT_CHARS,
};
pub use substitution::resolve;

verus! {

} // verus!
