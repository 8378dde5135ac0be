//! SMS ⇄ instant-messaging bridge: verified protocol and bookkeeping logic.

pub mod boards;
pub mod bridge;
pub mod commands;
pub mod config;
pub mod creds;
pub mod diagnostics;
pub mod i18n;
pub mod im;
pub mod log_ring;
pub mod mms;
pub mod ota;
pub mod modem;
pub mod persist;
pub mod sms;
pub mod strutil;
pub mod testing;
pub mod text;
