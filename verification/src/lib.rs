//! Export of a relational database snapshot into a content-addressable
//! layout: one newline-delimited JSON file per table, one file per schema
//! object's SQL source, written either to a directory tree or to a bare git
//! repository where each export becomes a commit only if content changed.

pub mod codec;
pub mod dir;
pub mod git;
pub mod options;
pub mod schema;
pub mod tree;

pub use codec::Value;
pub use schema::SchemaEntry;
