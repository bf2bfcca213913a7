//! Contact with the machine: what was observed of it, and what is made of that.

pub mod allocation;
pub mod clock;
pub mod evidence;
pub mod fs;
pub mod lock;
pub mod profile;
pub mod spawn;
