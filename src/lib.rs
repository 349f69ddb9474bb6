//! A note index for a markdown knowledge base.
//!
//! - `extract`: links, tags, todos and headings read from note text;
//! - `resolve`: link targets resolved to note paths;
//! - `table` and `index`: the index tables, re-indexing, queries and the
//!   sync pass that keeps the index in step with the notes on disk;
//! - `laws`: what holds across several index operations;
//! - `recur`: the next date of a repeating todo and the daily note it goes to;
//! - `carry`: the todo line that carries a completed repeating todo forward;
//! - `notes`: note records, the link graph, path checks and note edits;
//! - `text` and `error`: shared text primitives and error kinds.
pub mod carry;
pub mod error;
pub mod extract;
pub mod index;
pub mod laws;
pub mod notes;
pub mod recur;
pub mod resolve;
pub mod table;
pub mod text;
