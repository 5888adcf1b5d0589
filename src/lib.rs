//! Indexing and retrieval engine for a local semantic search over note files.
pub mod chunker;
pub mod config;
pub mod discovery;
pub mod error;
pub mod frontmatter;
pub mod indexing;
pub mod keys;
pub mod parser;
pub mod query;
pub mod ranking;
pub mod state;
pub mod structure;
pub mod text;
pub mod watch;
