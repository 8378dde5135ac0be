//! /pause and /resume commands.

use crate::log_ring::LogRing;
use crate::commands::{Command, CommandContext, PAUSE_SENTINEL, RESUME_SENTINEL};
use crate::i18n::en::{desc_pause, desc_resume, pause_ok, resume_already_active, resume_ok};
use crate::persist::{keys, load_bool, spec_load_bool};
use crate::strutil::{
    new_string, parse_unsigned_max, push_decimal, push_str, spec_decimal, spec_parse_unsigned,
    spec_trim, trim_str,
};
use vstd::prelude::*;

verus! {

/// `/pause [minutes]`: asks the poller to pause forwarding.
pub struct PauseCommand;

/// `/resume`: asks the poller to resume forwarding.
pub struct ResumeCommand;

/// Minutes a `/pause` asks for: the trimmed argument as a `u32`, else 60.
pub open spec fn spec_pause_minutes(args: Seq<char>) -> u32 {
    match spec_parse_unsigned(spec_trim(args)) {
        Some(v) => if v <= u32::MAX { v as u32 } else { 60 },
        None => 60,
    }
}

/// Parses the minutes of a `/pause`.
pub fn pause_minutes(args: &str) -> (r: u32)
    ensures
        r == spec_pause_minutes(args@),
{
    let t = trim_str(args);
    match parse_unsigned_max(t.as_str(), 0xFFFF_FFFF) {
        Some(v) => v as u32,
        None => 60,
    }
}

impl Command for PauseCommand {
    open spec fn spec_name(&self) -> Seq<char> {
        "pause"@
    }

    open spec fn spec_description(&self) -> Seq<char> {
        "Pause SMS forwarding (default 60 min)"@
    }

    open spec fn replies(&self, args: Seq<char>, ctx: &CommandContext, log: LogRing, reply: Seq<char>) -> bool {
        reply =~= PAUSE_SENTINEL@ + spec_decimal(spec_pause_minutes(args) as nat) + "  \n"@ + "Forwarding paused for "@
            + spec_decimal(spec_pause_minutes(args) as nat) + " min."@
    }

    fn name(&self) -> (r: &'static str) {
        "pause"
    }

    fn description(&self) -> (r: &'static str) {
        desc_pause()
    }

    fn handle(&self, args: &str, _ctx: &CommandContext, _log_ring: &mut LogRing) -> (r: String)
        ensures
            r@ == PAUSE_SENTINEL@ + spec_decimal(spec_pause_minutes(args@) as nat) + "  \n"@
                + "Forwarding paused for "@ + spec_decimal(spec_pause_minutes(args@) as nat) + " min."@,
    {
        let mins = pause_minutes(args);
        let mut out = new_string();
        push_str(&mut out, PAUSE_SENTINEL);
        push_decimal(&mut out, mins as u64);
        push_str(&mut out, "  \n");
        push_str(&mut out, pause_ok(mins).as_str());
        out
    }
}

impl Command for ResumeCommand {
    open spec fn spec_name(&self) -> Seq<char> {
        "resume"@
    }

    open spec fn spec_description(&self) -> Seq<char> {
        "Resume SMS forwarding immediately"@
    }

    open spec fn replies(&self, args: Seq<char>, ctx: &CommandContext, log: LogRing, reply: Seq<char>) -> bool {
        &&& (reply == RESUME_SENTINEL@ + "  \n"@ + "Forwarding resumed."@ || reply == "Forwarding is already active."@)
        &&& ctx.store.obeys_model() ==> if spec_load_bool(ctx.store.stored(), keys::FWD_ENABLED@) == Some(false) {
            reply == RESUME_SENTINEL@ + "  \n"@ + "Forwarding resumed."@
        } else {
            reply == "Forwarding is already active."@
        }
    }

    fn name(&self) -> (r: &'static str) {
        "resume"
    }

    fn description(&self) -> (r: &'static str) {
        desc_resume()
    }

    fn handle(&self, _args: &str, ctx: &CommandContext, _log_ring: &mut LogRing) -> (r: String)
        ensures
            ctx.store.obeys_model() && spec_load_bool(ctx.store.stored(), keys::FWD_ENABLED@) != Some(false) ==> r@
                == "Forwarding is already active."@,
            ctx.store.obeys_model() && spec_load_bool(ctx.store.stored(), keys::FWD_ENABLED@) == Some(false) ==> r@
                == RESUME_SENTINEL@ + "  \n"@ + "Forwarding resumed."@,
    {
        let on = match load_bool(ctx.store, keys::FWD_ENABLED) {
            Some(b) => b,
            None => true,
        };
        if on {
            crate::strutil::to_owned_string(resume_already_active())
        } else {
            let mut out = new_string();
            push_str(&mut out, RESUME_SENTINEL);
            push_str(&mut out, "  \n");
            push_str(&mut out, resume_ok());
            out
        }
    }
}

} // verus!
