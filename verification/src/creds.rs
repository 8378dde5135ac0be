//! Runtime configuration — stored on the device, with compile-time fallback.
//!
//! ## Priority
//! 1. A firmware image built with `SMSGATE_APPLY_COMPILED_CONFIG=1` writes its
//!    compile-time defaults into storage and uses them immediately.
//! 2. Otherwise, the values written by the serial provisioning flow.
//! 3. Compile-time defaults (for the build-from-source workflow).
//!
//! Stored settings are text; the parsing rules for them live here.

use crate::strutil::{chars_eq, chars_to_string, parse_unsigned_max, spec_parse_unsigned, spec_trim, str_to_chars, trim_chars};
use vstd::prelude::*;

verus! {

/// Fully-resolved runtime configuration.
#[derive(Debug, Clone)]
pub struct RuntimeConfig {
    pub wifi_ssid: String,
    pub wifi_pass: String,
    pub bot_token: String,
    pub chat_id: i64,
    pub cellular_data: bool,
    pub cellular_fallback: bool,
    pub apn: String,
    pub apn_user: String,
    pub apn_pass: String,
    pub sim_pin: String,
    pub max_failures_before_reboot: u8,
    pub poll_interval_ms: u32,
}

impl RuntimeConfig {
    /// Choose the runtime configuration for this boot: the image's compile-time
    /// `defaults` when `apply_compiled_config` is set, else the loaded values.
    pub fn resolve_compiled_config(loaded: Self, apply_compiled_config: bool, defaults: Self) -> (r: Self)
        ensures
            r == (if apply_compiled_config { defaults } else { loaded }),
    {
        if apply_compiled_config {
            defaults
        } else {
            loaded
        }
    }

    /// Minimum to operate: non-empty bot token **and** non-zero chat_id.
    /// WiFi SSID absence is allowed (cellular-only setups).
    pub fn is_provisioned(&self) -> (r: bool)
        ensures
            r == (self.bot_token@.len() > 0 && self.chat_id != 0),
    {
        !self.bot_token.as_str().is_empty() && self.chat_id != 0
    }
}

/// The boolean a stored setting spells, after trimming: `1`, `true`, `TRUE`, `True`,
/// `yes`, `YES`, `on`, `ON` for true; `0`, `false`, `FALSE`, `False`, `no`, `NO`, `off`,
/// `OFF` for false.
pub open spec fn spec_setting_bool(s: Seq<char>) -> Option<bool> {
    let t = spec_trim(s);
    if t == "1"@ || t == "true"@ || t == "TRUE"@ || t == "True"@ || t == "yes"@ || t == "YES"@ || t
        == "on"@ || t == "ON"@ {
        Some(true)
    } else if t == "0"@ || t == "false"@ || t == "FALSE"@ || t == "False"@ || t == "no"@ || t
        == "NO"@ || t == "off"@ || t == "OFF"@ {
        Some(false)
    } else {
        None
    }
}

fn matches_word(t: &Vec<char>, w: &str) -> (r: bool)
    ensures
        r == (t@ == w@),
{
    let wc = str_to_chars(w);
    chars_eq(t.as_slice(), wc.as_slice())
}

/// Parses a boolean setting.
pub fn setting_bool(value: &str) -> (r: Option<bool>)
    ensures
        r == spec_setting_bool(value@),
{
    let cs = str_to_chars(value);
    let t = trim_chars(cs.as_slice());
    if matches_word(&t, "1") || matches_word(&t, "true") || matches_word(&t, "TRUE") || matches_word(
        &t,
        "True",
    ) || matches_word(&t, "yes") || matches_word(&t, "YES") || matches_word(&t, "on")
        || matches_word(&t, "ON") {
        Some(true)
    } else if matches_word(&t, "0") || matches_word(&t, "false") || matches_word(&t, "FALSE")
        || matches_word(&t, "False") || matches_word(&t, "no") || matches_word(&t, "NO")
        || matches_word(&t, "off") || matches_word(&t, "OFF") {
        Some(false)
    } else {
        None
    }
}

/// Parses an 8-bit unsigned setting (`str::parse::<u8>`).
pub fn setting_u8(value: &str) -> (r: Option<u8>)
    ensures
        match spec_parse_unsigned(value@) {
            Some(v) => if v <= u8::MAX { r == Some(v as u8) } else { r is None },
            None => r is None,
        },
{
    match parse_unsigned_max(value, 255) {
        Some(v) => Some(v as u8),
        None => None,
    }
}

/// Parses a 32-bit unsigned setting (`str::parse::<u32>`).
pub fn setting_u32(value: &str) -> (r: Option<u32>)
    ensures
        match spec_parse_unsigned(value@) {
            Some(v) => if v <= u32::MAX { r == Some(v as u32) } else { r is None },
            None => r is None,
        },
{
    match parse_unsigned_max(value, 0xFFFF_FFFF) {
        Some(v) => Some(v as u32),
        None => None,
    }
}

/// A stored signed setting as decimal text: an optional `-` or `+`, then digits, in the
/// range of `i64`.
pub open spec fn spec_setting_i64(s: Seq<char>) -> Option<int> {
    if s.len() > 0 && s[0] == '-' {
        if s.len() > 1 && s[1] == '+' {
            None
        } else {
            match spec_parse_unsigned(s.skip(1)) {
                Some(v) => if v <= 0x8000_0000_0000_0000 { Some(-v) } else { None },
                None => None,
            }
        }
    } else {
        match spec_parse_unsigned(s) {
            Some(v) => if v <= 0x7FFF_FFFF_FFFF_FFFF { Some(v) } else { None },
            None => None,
        }
    }
}

/// Parses a stored signed setting (the chat id).
pub fn setting_i64(value: &str) -> (r: Option<i64>)
    ensures
        match spec_setting_i64(value@) {
            Some(v) => r == Some(v as i64),
            None => r is None,
        },
{
    let cs = str_to_chars(value);
    if cs.len() > 0 && cs[0] == '-' {
        if cs.len() > 1 && cs[1] == '+' {
            return None;
        }
        let rest = chars_to_string(vstd::slice::slice_subrange(cs.as_slice(), 1, cs.len()));
        assert(rest@ =~= value@.skip(1));
        match parse_unsigned_max(rest.as_str(), 0x8000_0000_0000_0000) {
            Some(v) => if v == 0x8000_0000_0000_0000 {
                Some(i64::MIN)
            } else {
                Some(-(v as i64))
            },
            None => None,
        }
    } else {
        match parse_unsigned_max(value, 0x7FFF_FFFF_FFFF_FFFF) {
            Some(v) => Some(v as i64),
            None => None,
        }
    }
}

} // verus!
