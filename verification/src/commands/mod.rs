//! What each subcommand decides and prints.

pub mod breakdown;
pub mod compare;
pub mod daemon;
pub mod doctor;
pub mod export;
pub mod lifecycle;
pub mod mark;
pub mod memory;
pub mod origins;
pub mod promises;
pub mod record;
pub mod sessions;
pub mod tail;
