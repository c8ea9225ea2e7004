//! The RIP version 2 wire format.
pub mod command;
pub mod entry;
pub mod message;
