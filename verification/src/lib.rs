//! Domain types and the markdown grammar behind timemd, a time tracker whose
//! database is a tree of markdown files.
//!
//! Reads are lenient and writes are strict: a line the grammar cannot read is
//! preserved verbatim and reported, and only lines that read back as what was
//! meant are ever written.

pub mod text;
pub mod error;
pub mod minutes;
pub mod ids;
pub mod clock;
pub mod grammar;
pub mod schedule;
pub mod project;
pub mod yaml;
pub mod document;
pub mod list;
pub mod order;
pub mod blocks;
pub mod day;
pub mod todo;
pub mod active;
pub mod store;
pub mod settings;
pub mod report;
pub mod timer;
pub mod push;
pub mod ntfy;
pub mod reminders;
pub mod todo_line;
pub mod session_line;
pub mod block_line;
pub mod days_line;
pub mod recurring_line;
pub mod link_prefix;
pub mod todo_again;
