//! The life of a store: opening, closing, copying and compaction.

pub mod close_course;
pub mod compact;
pub mod compact_course;
pub mod compaction_run;
pub mod copy_course;
pub mod copy_run;
pub mod file_kind;
pub mod fork;
pub mod open;
pub mod open_course;
pub mod reaction;
pub mod snapshot;
pub mod state;
