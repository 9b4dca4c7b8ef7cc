//! A task-list library: a text serialization engine for TODO lists, a
//! version-aware append-only history ledger, and a version-bucketed
//! changelog builder.

pub mod changelog_text;
pub mod config;
pub mod error;
pub mod history;
pub mod ignore;
pub mod list;
pub mod registry;
pub mod release;
pub mod scan;
pub mod seqs;
pub mod storage;
pub mod task;
pub mod text;
pub mod time;
pub mod todo_text;
pub mod trusted;
pub mod version;
