//! Layout of structured log lines into width-bounded display rows, and
//! incremental tailing of a growing log file.
pub mod error;
pub mod filter;
pub mod header;
pub mod layout;
pub mod parser;
pub mod protocol;
pub mod query;
pub mod session;
pub mod span;
pub mod tail;
pub mod text;
pub mod time;
pub mod unicode;
