//! In-memory index of committed events.

pub mod columnar;
pub mod entry;
pub mod gate;
pub mod groups;
pub mod idemp;
pub mod interner;
pub mod layout;
pub mod projection_bridge;
pub mod query;
pub mod restore;
pub mod scan;
pub mod store;
pub mod stream;
pub mod visibility;
