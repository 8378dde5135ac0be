//! A76xx modem driver helpers: the command text and reply handling that the
//! UART driver uses.

pub mod at;
pub mod qhttp;
pub mod sms;
