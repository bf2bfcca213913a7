//! Verified core of an append-only event store: index, visibility, restore
//! routing, durable idempotency, payload keys, platform evidence, projection
//! flow and store lifecycle.

pub mod bytes;
pub mod checksum;
pub mod coordinate;
pub mod error;
pub mod event;
pub mod hlc;
pub mod index;
pub mod keyscope;
pub mod lifecycle;
pub mod platform;
pub mod projection;
pub mod sort;
pub mod table;
pub mod text;
