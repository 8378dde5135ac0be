//! The built-in bot commands.

pub mod block;
pub mod help;
pub mod log_cmd;
pub mod pause;
pub mod restart;
pub mod send;
pub mod status;
