//! Forensic record extraction over the Windows Search Indexer databases:
//! typed field codecs, the two record readers (ESE rows and SQLite
//! entity-attribute-value rows), the report engine with its constraints,
//! and the report sinks.

pub mod codec;
pub mod config;
pub mod engine;
pub mod ese;
pub mod files;
pub mod props;
pub mod reader;
pub mod report;
pub mod sidr;
pub mod sqlite;
