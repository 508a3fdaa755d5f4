//! Incremental regex search engine: a bounded content cache, a query
//! compiler, a line matcher, display windowing with highlight remapping,
//! a snapshot differ, and the session state machine that ties them together.
pub mod cache;
pub mod lines;
pub mod matcher;
pub mod search;
pub mod session;
pub mod textfile;
pub mod window;
