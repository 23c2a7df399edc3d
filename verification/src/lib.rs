//! Local-first assistant services: durable memory, observers, scheduled tasks
//! and session transcripts.
#![allow(unused_imports)]

pub mod date;
pub mod lines;
pub mod memory;
pub mod number;
pub mod observer;
pub mod ordered;
pub mod path;
pub mod scheduled;
pub mod schema;
pub mod seqs;
pub mod session;
pub mod table;
pub mod text;
pub mod writing;
