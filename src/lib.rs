//! Core of a small content-addressed version-control tool: object codecs,
//! the loose-object store, the staging index, the tree builder and the
//! status engine.
pub mod author;
pub mod builder;
pub mod bytes;
pub mod commit;
pub mod database;
pub mod error;
pub mod entry;
pub mod digest;
pub mod index;
pub mod object;
pub mod tree;
pub mod workspace;
pub mod sort;
pub mod status;
