//! The bridge between the modem and the IM backend: SMS forwarding, reply routing,
//! call handling and command dispatch.

pub mod call_handler;
pub mod forwarder;
pub mod monitor;
pub mod poller;
pub mod reply_router;
pub mod sms_handler;
