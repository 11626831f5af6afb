//! Builds one nested document out of the rows of a table, writing each field
//! at the dotted path that a column mapping gives, and renders documents as
//! tag-based markup.
//!
//! - `node`: the document tree and its mathematical model.
//! - `path`: dotted paths, the path writer and reader, and their laws.
//! - `assemble`: folding a whole table into one document.
//! - `render`: the markup renderer.
//! - `table`: reading CSV text into a document.
//! - `json`: the indented JSON text of a document.

pub mod assemble;
pub mod json;
pub mod node;
pub mod path;
pub mod render;
pub mod table;
