//! Rules of a memory store kept in SQLite.
pub mod bytes;
pub mod cache;
pub mod code_areas;
pub mod digest;
pub mod embedding;
pub mod error;
pub mod facts;
pub mod fts;
pub mod hooks;
pub mod ident;
pub mod json;
pub mod like;
pub mod memories;
pub mod memory;
pub mod open;
pub mod order;
pub mod pending;
pub mod queries;
pub mod relations;
pub mod row;
pub mod store;
pub mod table;
pub mod text;
pub mod time;
pub mod uri;
