//! A verified document core for frontmatter-formatted notes: parsing a
//! delimited metadata block into a canonical record, normalizing date and
//! tag encodings, assigning stable identity, and projecting one record
//! into the storage, disk and human output shapes.

pub mod chars;
pub mod date;
pub mod document;
pub mod idgen;
pub mod laws;
pub mod num;
pub mod parse;
pub mod render;
pub mod terminal;

pub use document::{DocError, Document, DocumentV, LegacyDocument, ScalarOrList, SerializationType};
pub use terminal::TerminalApp;
