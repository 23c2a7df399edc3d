//! Background observers of a session: files, URLs and processes that wake the
//! agent when they change.
pub mod event;
pub mod file;
pub mod http;
pub mod process;
pub mod source;
pub mod supervisor;
pub mod tool;
pub mod waking;
