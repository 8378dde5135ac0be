use crate::log_ring::LogRing;
use crate::commands::{Command, CommandContext};
use crate::i18n::en::desc_help;
use vstd::prelude::*;

verus! {

/// `/help`: replies with the help text it was built with.
pub struct HelpCommand {
    pub help_text: String,
}

impl Command for HelpCommand {
    open spec fn spec_name(&self) -> Seq<char> {
        "help"@
    }

    open spec fn spec_description(&self) -> Seq<char> {
        "List all commands"@
    }

    open spec fn replies(&self, args: Seq<char>, ctx: &CommandContext, log: LogRing, reply: Seq<char>) -> bool {
        reply == self.help_text@
    }

    fn name(&self) -> (r: &'static str) {
        "help"
    }

    fn description(&self) -> (r: &'static str) {
        desc_help()
    }

    fn handle(&self, _args: &str, _ctx: &CommandContext, _log_ring: &mut LogRing) -> (r: String)
        ensures
            r@ == self.help_text@,
    {
        self.help_text.clone()
    }
}

} // verus!
