//! /block, /unblock and /blocklist commands.
//!
//! `/block` and `/unblock` answer with a sentinel line, which the poller turns into the
//! change of the stored block list, followed by a confirmation for the user.

use crate::bridge::forwarder::{load_blocklist, spec_blocklist};
use crate::bridge::poller::{join_lines, spec_join};
use crate::commands::{Command, CommandContext, BLOCK_SENTINEL, UNBLOCK_SENTINEL};
use crate::i18n::en::{
    block_ok, block_usage, blocklist_empty, blocklist_header, desc_block, desc_blocklist,
    desc_unblock, unblock_not_found, unblock_ok, unblock_usage,
};
use crate::log_ring::LogRing;
use crate::sms::codec::{normalize_phone, spec_normalize_phone};
use crate::strutil::{new_string, push_str, spec_decimal, str_eq, string_views, to_owned_string};
use vstd::prelude::*;

verus! {

/// `/block <number>`: asks the poller to add a number to the block list.
pub struct BlockCommand;

/// `/unblock <number>`: asks the poller to take a number off the block list.
pub struct UnblockCommand;

/// `/blocklist`: lists the blocked numbers.
pub struct BlockListCommand;

/// The reply to `/block` with the arguments `args`.
pub open spec fn spec_block_reply(args: Seq<char>) -> Seq<char> {
    let n = spec_normalize_phone(args);
    if n.len() == 0 {
        "Usage: /block <number>"@
    } else {
        BLOCK_SENTINEL@ + n + "\n"@ + "Blocked: "@ + n
    }
}

/// The reply to `/unblock` with the arguments `args`, when the block list is `list`.
pub open spec fn spec_unblock_reply(args: Seq<char>, list: Seq<Seq<char>>) -> Seq<char> {
    let n = spec_normalize_phone(args);
    if n.len() == 0 {
        "Usage: /unblock <number>"@
    } else if list.contains(n) {
        UNBLOCK_SENTINEL@ + n + "\n"@ + "Unblocked: "@ + n
    } else {
        n + " is not in the block list."@
    }
}

/// The reply to `/blocklist` when the block list is `list`.
pub open spec fn spec_blocklist_reply(list: Seq<Seq<char>>) -> Seq<char> {
    if list.len() == 0 {
        "Block list is empty."@
    } else {
        "Blocked numbers ("@ + spec_decimal(list.len()) + "):\n"@ + spec_join(list)
    }
}

/// Whether `s` is one of the strings of `v`.
fn contains_string(v: &Vec<String>, s: &str) -> (r: bool)
    ensures
        r == string_views(v@).contains(s@),
{
    let mut i: usize = 0;
    while i < v.len()
        invariant
            i <= v@.len(),
            forall|k: int| 0 <= k < i ==> v@[k]@ != s@,
        decreases v@.len() - i,
    {
        if str_eq(v[i].as_str(), s) {
            assert(string_views(v@)[i as int] == s@);
            return true;
        }
        i = i + 1;
    }
    proof {
        if string_views(v@).contains(s@) {
            let k = choose|k: int| 0 <= k < string_views(v@).len() && string_views(v@)[k] == s@;
            assert(v@[k]@ == s@);
        }
    }
    false
}

impl Command for BlockCommand {
    open spec fn spec_name(&self) -> Seq<char> {
        "block"@
    }

    open spec fn spec_description(&self) -> Seq<char> {
        "Block SMS from a number"@
    }

    open spec fn replies(&self, args: Seq<char>, ctx: &CommandContext, log: LogRing, reply: Seq<char>) -> bool {
        reply == spec_block_reply(args)
    }

    fn name(&self) -> (r: &'static str) {
        "block"
    }

    fn description(&self) -> (r: &'static str) {
        desc_block()
    }

    fn handle(&self, args: &str, _ctx: &CommandContext, _log_ring: &mut LogRing) -> (r: String)
        ensures
            r@ == spec_block_reply(args@),
    {
        let n = normalize_phone(args);
        if n.as_str().unicode_len() == 0 {
            proof {
                assert(n@.len() == 0);
            }
            return to_owned_string(block_usage());
        }
        proof {
            assert(n@.len() != 0);
        }
        let mut out = new_string();
        push_str(&mut out, BLOCK_SENTINEL);
        push_str(&mut out, n.as_str());
        push_str(&mut out, "\n");
        push_str(&mut out, block_ok(n.as_str()).as_str());
        assert(out@ =~= BLOCK_SENTINEL@ + n@ + "\n"@ + "Blocked: "@ + n@);
        out
    }
}

impl Command for UnblockCommand {
    open spec fn spec_name(&self) -> Seq<char> {
        "unblock"@
    }

    open spec fn spec_description(&self) -> Seq<char> {
        "Unblock SMS from a number"@
    }

    open spec fn replies(&self, args: Seq<char>, ctx: &CommandContext, log: LogRing, reply: Seq<char>) -> bool {
        &&& exists|list: Seq<Seq<char>>| reply == #[trigger] spec_unblock_reply(args, list)
        &&& ctx.store.obeys_model() ==> reply == spec_unblock_reply(args, spec_blocklist(ctx.store.stored()))
    }

    fn name(&self) -> (r: &'static str) {
        "unblock"
    }

    fn description(&self) -> (r: &'static str) {
        desc_unblock()
    }

    fn handle(&self, args: &str, ctx: &CommandContext, _log_ring: &mut LogRing) -> (r: String)
        ensures
            exists|list: Seq<Seq<char>>| r@ == #[trigger] spec_unblock_reply(args@, list),
            ctx.store.obeys_model() ==> r@ == spec_unblock_reply(args@, spec_blocklist(ctx.store.stored())),
    {
        let n = normalize_phone(args);
        let list = load_blocklist(ctx.store);
        let ghost l = string_views(list@);
        if n.as_str().unicode_len() == 0 {
            proof {
                assert(n@.len() == 0);
                assert(spec_unblock_reply(args@, l) == "Usage: /unblock <number>"@);
            }
            return to_owned_string(unblock_usage());
        }
        proof {
            assert(n@.len() != 0);
        }
        if contains_string(&list, n.as_str()) {
            let mut out = new_string();
            push_str(&mut out, UNBLOCK_SENTINEL);
            push_str(&mut out, n.as_str());
            push_str(&mut out, "\n");
            push_str(&mut out, unblock_ok(n.as_str()).as_str());
            assert(out@ =~= UNBLOCK_SENTINEL@ + n@ + "\n"@ + "Unblocked: "@ + n@);
            assert(out@ == spec_unblock_reply(args@, l));
            out
        } else {
            let out = unblock_not_found(n.as_str());
            assert(out@ == spec_unblock_reply(args@, l));
            out
        }
    }
}

impl Command for BlockListCommand {
    open spec fn spec_name(&self) -> Seq<char> {
        "blocklist"@
    }

    open spec fn spec_description(&self) -> Seq<char> {
        "Show blocked numbers"@
    }

    open spec fn replies(&self, args: Seq<char>, ctx: &CommandContext, log: LogRing, reply: Seq<char>) -> bool {
        &&& exists|list: Seq<Seq<char>>| reply == #[trigger] spec_blocklist_reply(list)
        &&& ctx.store.obeys_model() ==> reply == spec_blocklist_reply(spec_blocklist(ctx.store.stored()))
    }

    fn name(&self) -> (r: &'static str) {
        "blocklist"
    }

    fn description(&self) -> (r: &'static str) {
        desc_blocklist()
    }

    fn handle(&self, _args: &str, ctx: &CommandContext, _log_ring: &mut LogRing) -> (r: String)
        ensures
            exists|list: Seq<Seq<char>>| r@ == #[trigger] spec_blocklist_reply(list),
            ctx.store.obeys_model() ==> r@ == spec_blocklist_reply(spec_blocklist(ctx.store.stored())),
    {
        let list = load_blocklist(ctx.store);
        let ghost l = string_views(list@);
        if list.len() == 0 {
            let r = to_owned_string(blocklist_empty());
            assert(l.len() == 0);
            assert(r@ == spec_blocklist_reply(l));
            return r;
        }
        let mut out = blocklist_header(list.len());
        let body = join_lines(&list);
        push_str(&mut out, body.as_str());
        assert(out@ == spec_blocklist_reply(l));
        out
    }
}

} // verus!
