//! A reminder scheduler: a time-ordered queue of recurring reminders,
//! reconciliation of live edits to the reminder list into that queue, and
//! the supporting duration utilities. File storage, change watching and
//! on-screen delivery live outside this crate.

pub mod config;
pub mod entry;
pub mod error;
pub mod process;
pub mod utils;
