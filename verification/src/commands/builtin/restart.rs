use crate::log_ring::LogRing;
use crate::commands::{Command, CommandContext, RESTART_SENTINEL};
use crate::i18n::en::{desc_restart, restart_ok};
use crate::strutil::{new_string, push_str};
use vstd::prelude::*;

verus! {

/// `/restart`: asks the poller to reboot the device.
pub struct RestartCommand;

impl Command for RestartCommand {
    open spec fn spec_name(&self) -> Seq<char> {
        "restart"@
    }

    open spec fn spec_description(&self) -> Seq<char> {
        "Reboot the device"@
    }

    open spec fn replies(&self, args: Seq<char>, ctx: &CommandContext, log: LogRing, reply: Seq<char>) -> bool {
        reply == RESTART_SENTINEL@ + "  \n"@ + "Rebooting…"@
    }

    fn name(&self) -> (r: &'static str) {
        "restart"
    }

    fn description(&self) -> (r: &'static str) {
        desc_restart()
    }

    fn handle(&self, _args: &str, _ctx: &CommandContext, _log_ring: &mut LogRing) -> (r: String)
        ensures
            r@ == RESTART_SENTINEL@ + "  \n"@ + "Rebooting…"@,
    {
        let mut out = new_string();
        push_str(&mut out, RESTART_SENTINEL);
        push_str(&mut out, "  \n");
        push_str(&mut out, restart_ok());
        out
    }
}

} // verus!
