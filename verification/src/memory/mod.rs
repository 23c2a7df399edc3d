//! Durable, local-first memory kept as Markdown: a curated file and dated
//! daily logs, with the rules that cut, key, link, rank and rewrite them.

pub mod ambient;
pub mod chunk;
pub mod chunking;
pub mod coalesce;
pub mod config;
pub mod consolidate;
pub mod consolidation;
pub mod contents;
pub mod document;
pub mod edit;
pub mod embed;
pub mod fallback;
pub mod files;
pub mod finding;
pub mod fixpoint;
pub mod flush;
pub mod hits;
pub mod index;
pub mod keys;
pub mod links;
pub mod markdown;
pub mod outcome;
pub mod paths;
pub mod prompt;
pub mod ranking;
pub mod recall;
pub mod rejoin;
pub mod render;
pub mod search;
pub mod snapshot;
pub mod stability;
pub mod stats;
pub mod strata;
pub mod tidiness;
pub mod usage;
