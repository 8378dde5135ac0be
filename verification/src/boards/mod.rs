//! Board hardware: errors of the bring-up and the supported boards.

use crate::strutil::{new_string, push_str};
use vstd::prelude::*;

verus! {

/// Errors of the board bring-up.
#[derive(Debug)]
pub enum BoardError {
    Gpio(String),
    Uart(String),
}

impl BoardError {
    /// The text shown for the error.
    pub fn message(&self) -> (r: String)
        ensures
            r@ == (match self {
                BoardError::Gpio(e) => "GPIO init failed: "@ + e@,
                BoardError::Uart(e) => "UART init failed: "@ + e@,
            }),
    {
        let mut out = new_string();
        match self {
            BoardError::Gpio(e) => {
                push_str(&mut out, "GPIO init failed: ");
                push_str(&mut out, e.as_str());
            },
            BoardError::Uart(e) => {
                push_str(&mut out, "UART init failed: ");
                push_str(&mut out, e.as_str());
            },
        }
        out
    }
}

/// LilyGo T-A7670X (A7670G modem). Its power-on sequence and UART set-up run on the
/// device.
pub struct TA7670X;

} // verus!
