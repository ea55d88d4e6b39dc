//! A minimal INI document library: a two-level string mapping with a
//! verified line-oriented parser, a verified serializer, and verified
//! accessors, including case-insensitive variants.

pub mod casefold;
pub mod document;
pub mod laws;
pub mod parse;
pub mod serialize;
pub mod text;

pub use document::IniDocument;
pub use document::Pair;
pub use parse::InnitError;
