//! Sessions and their transcripts: how they are kept, copied, edited, searched
//! and exported.
pub mod compaction;
pub mod export;
pub mod history;
pub mod keeping;
pub mod reading;
pub mod search;
pub mod store;
pub mod transcript;
pub mod types;
