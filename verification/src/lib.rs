//! A content-addressed document database.
//!
//! Every version of a document is an object under the hash of its content, so
//! nothing is ever overwritten. An index leads from each document to its
//! current version, each version names the one before it, and a graph of typed
//! edges says which versions a version was caused by.
//!
//! The library works on what the files of a database hold, and says what is to
//! be written to them; reading and writing files is left to its callers.

pub mod answers;
pub mod ascending;
pub mod batch;
pub mod batch_laws;
pub mod bindings;
pub mod clauses;
pub mod cli;
pub mod commitment;
pub mod compaction;
pub mod conditions;
pub mod crypto;
pub mod db;
pub mod digest;
pub mod double;
pub mod encoding;
pub mod graph;
pub mod guarantees;
pub mod history;
pub mod ident;
pub mod index;
pub mod index_laws;
pub mod interface;
pub mod json;
pub mod keyed;
pub mod lexer;
pub mod links;
pub mod migrate;
pub mod names;
pub mod node;
pub mod nql;
pub mod ordered;
pub mod parser;
pub mod persistence;
pub mod provenance;
pub mod query_laws;
pub mod replies;
pub mod requests;
pub mod restart;
pub mod segment;
pub mod server;
pub mod sort;
pub mod sorted;
pub mod spelling;
pub mod store;
pub mod substrate;
pub mod takeover;
pub mod text;
pub mod timeline;
pub mod usage;

pub use crate::db::Db;
pub use crate::graph::GraphStore;
pub use crate::index::{IdIndex, OrderedValue, SortedIndexes};
pub use crate::store::{Dek, Node, ObjectStore};
