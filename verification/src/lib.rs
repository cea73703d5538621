//! A verified index over a collection of plain-text notes.
//!
//! Notes ("Zettels") live in projects, point at each other with `[[Title]]`
//! links and carry `#tag` labels. The index keeps one row per note, keyed by
//! title and project, and answers pattern, tag and link-graph queries.

pub mod codec;
pub mod config;
pub mod database;
pub mod error;
pub mod laws;
pub mod like;
pub mod paths;
pub mod pattern;
pub mod sorting;
pub mod table;
pub mod text;
pub mod zettel;

pub use codec::{str_to_vec, vec_to_str, SQL_ARRAY_SEPARATOR};
pub use config::ConfigOptions;
pub use database::{Database, NoteFile};
pub use error::StoreError;
pub use zettel::{StoredRow, Zettel};
