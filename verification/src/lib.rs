//! Core of a personal task manager: reading timestamps of uncertain unit,
//! nesting tasks under their parents, merging a local and a remote snapshot,
//! and estimating a due-date offset from past completions.

pub mod entity;
pub mod estimate;
pub mod hierarchy;
pub mod history;
pub mod http;
pub mod suggest;
pub mod sync;
pub mod sync_laws;
pub mod task;
pub mod text;
pub mod timestamp;
