//! Bot command abstraction and registry.

pub mod builtin;

use crate::log_ring::LogRing;
use crate::modem::ModemStatus;
use crate::persist::Store;
use crate::sms::sender::SmsSender;
use crate::strutil::{
    new_string, push_char, push_str, str_to_chars, to_owned_string, is_white_space,
    is_white_space_exec, spec_trim, trim_chars, chars_to_string, find_char_from,
    lemma_find_char_range, find_char_at,
};
use vstd::prelude::*;

verus! {

/// Sentinel prefixes embedded in command replies. The poller strips these
/// lines and applies their side effects (enqueue SMS, toggle blocklist, etc.).
pub const SEND_SENTINEL: &'static str = "__SEND__:";

pub const BLOCK_SENTINEL: &'static str = "__BLOCK__:";

pub const UNBLOCK_SENTINEL: &'static str = "__UNBLOCK__:";

pub const PAUSE_SENTINEL: &'static str = "__PAUSE__:";

pub const RESUME_SENTINEL: &'static str = "__RESUME__";

pub const RESTART_SENTINEL: &'static str = "__RESTART__";

/// The encoding of one body character inside a sentinel line: backslash, LF and CR
/// become two-character escapes.
pub open spec fn sentinel_escape_char(c: char) -> Seq<char> {
    if c == '\\' {
        seq!['\\', '\\']
    } else if c == '\n' {
        seq!['\\', 'n']
    } else if c == '\r' {
        seq!['\\', 'r']
    } else {
        seq![c]
    }
}

/// A message body encoded to fit on one sentinel line.
pub open spec fn spec_encode_sentinel_body(s: Seq<char>) -> Seq<char>
    decreases s.len(),
{
    if s.len() == 0 {
        Seq::empty()
    } else {
        sentinel_escape_char(s[0]) + spec_encode_sentinel_body(s.skip(1))
    }
}

/// Decoding of a sentinel body: `\n`, `\r`, `\\` are unescaped; a backslash before
/// anything else, or at the end, stays as it is.
pub open spec fn spec_decode_sentinel_body(s: Seq<char>) -> Seq<char>
    decreases s.len(),
{
    if s.len() == 0 {
        Seq::empty()
    } else if s[0] != '\\' {
        seq![s[0]] + spec_decode_sentinel_body(s.skip(1))
    } else if s.len() == 1 {
        seq!['\\']
    } else if s[1] == 'n' {
        seq!['\n'] + spec_decode_sentinel_body(s.skip(2))
    } else if s[1] == 'r' {
        seq!['\r'] + spec_decode_sentinel_body(s.skip(2))
    } else if s[1] == '\\' {
        seq!['\\'] + spec_decode_sentinel_body(s.skip(2))
    } else {
        seq!['\\', s[1]] + spec_decode_sentinel_body(s.skip(2))
    }
}

/// Appends `body` encoded for a sentinel line.
pub fn push_encoded_sentinel_body(out: &mut String, body: &str)
    ensures
        final(out)@ == old(out)@ + spec_encode_sentinel_body(body@),
{
    let cs = str_to_chars(body);
    let ghost start = out@;
    let mut i: usize = 0;
    assert(cs@.skip(0) =~= cs@);
    while i < cs.len()
        invariant
            i <= cs@.len(),
            cs@ == body@,
            start + spec_encode_sentinel_body(body@) == out@ + spec_encode_sentinel_body(cs@.skip(i as int)),
        decreases cs@.len() - i,
    {
        let ghost rest = cs@.skip(i as int);
        let ghost o = out@;
        assert(rest[0] == cs@[i as int]);
        assert(rest.skip(1) =~= cs@.skip(i + 1));
        let ch = cs[i];
        if ch == '\\' {
            push_char(out, '\\');
            push_char(out, '\\');
        } else if ch == '\n' {
            push_char(out, '\\');
            push_char(out, 'n');
        } else if ch == '\r' {
            push_char(out, '\\');
            push_char(out, 'r');
        } else {
            push_char(out, ch);
        }
        assert(out@ =~= o + sentinel_escape_char(ch));
        assert(o + (sentinel_escape_char(ch) + spec_encode_sentinel_body(rest.skip(1))) =~= out@ + spec_encode_sentinel_body(rest.skip(1)));
        i = i + 1;
    }
    assert(cs@.skip(cs@.len() as int) =~= Seq::<char>::empty());
    assert(out@ + Seq::<char>::empty() =~= out@);
}

/// Decodes a sentinel body.
pub fn decode_sentinel_body(encoded: &str) -> (r: String)
    ensures
        r@ == spec_decode_sentinel_body(encoded@),
{
    let cs = str_to_chars(encoded);
    let mut out = new_string();
    let mut i: usize = 0;
    assert(cs@.skip(0) =~= cs@);
    while i < cs.len()
        invariant
            i <= cs@.len(),
            cs@ == encoded@,
            spec_decode_sentinel_body(encoded@) == out@ + spec_decode_sentinel_body(cs@.skip(i as int)),
        decreases cs@.len() - i,
    {
        let ghost rest = cs@.skip(i as int);
        let ghost o = out@;
        assert(rest[0] == cs@[i as int]);
        let ch = cs[i];
        if ch != '\\' {
            push_char(&mut out, ch);
            assert(rest.skip(1) =~= cs@.skip(i + 1));
            assert(o + (seq![ch] + spec_decode_sentinel_body(rest.skip(1))) =~= out@ + spec_decode_sentinel_body(rest.skip(1)));
            i = i + 1;
        } else if i + 1 >= cs.len() {
            push_char(&mut out, '\\');
            assert(rest.len() == 1);
            assert(cs@.skip(i + 1).len() == 0);
            assert(out@ + spec_decode_sentinel_body(cs@.skip(i + 1)) =~= o + spec_decode_sentinel_body(rest));
            i = i + 1;
        } else {
            assert(rest[1] == cs@[i + 1]);
            assert(rest.skip(2) =~= cs@.skip(i + 2));
            let nx = cs[i + 1];
            if nx == 'n' {
                push_char(&mut out, '\n');
            } else if nx == 'r' {
                push_char(&mut out, '\r');
            } else if nx == '\\' {
                push_char(&mut out, '\\');
            } else {
                push_char(&mut out, '\\');
                push_char(&mut out, nx);
            }
            let ghost pushed = if nx == 'n' {
                seq!['\n']
            } else if nx == 'r' {
                seq!['\r']
            } else if nx == '\\' {
                seq!['\\']
            } else {
                seq!['\\', nx]
            };
            assert(out@ =~= o + pushed);
            assert(spec_decode_sentinel_body(rest) == pushed + spec_decode_sentinel_body(rest.skip(2)));
            assert(out@ + spec_decode_sentinel_body(rest.skip(2)) =~= o + spec_decode_sentinel_body(rest));
            i = i + 2;
        }
    }
    assert(cs@.skip(cs@.len() as int) =~= Seq::<char>::empty());
    out
}

/// A sentinel body reads back as the text that was encoded.
pub proof fn lemma_sentinel_body_roundtrip(s: Seq<char>)
    ensures
        spec_decode_sentinel_body(spec_encode_sentinel_body(s)) == s,
    decreases s.len(),
{
    if s.len() > 0 {
        let e = spec_encode_sentinel_body(s);
        let x = spec_encode_sentinel_body(s.skip(1));
        lemma_sentinel_body_roundtrip(s.skip(1));
        let k = sentinel_escape_char(s[0]).len() as int;
        assert(e.skip(k) =~= x);
        assert(s =~= seq![s[0]] + s.skip(1));
    }
}

/// Read-only context available to a command handler. The event log is handed to the
/// handler beside it, mutably, because reading it goes through its storage.
pub struct CommandContext<'a> {
    pub store: &'a dyn Store,
    pub modem_status: &'a ModemStatus,
    pub send_queue: &'a SmsSender,
    pub uptime_ms: u32,
    /// Free heap in bytes (0 on host/tests; real value on device).
    pub free_heap_bytes: u32,
    /// Minimum free heap in bytes since boot (0 on host/tests; real value on device).
    pub min_free_heap_bytes: u32,
    /// WiFi status string ("" on host/tests).
    pub wifi_info: &'a str,
    /// Firmware build identifier (git commit).
    pub build_commit: &'a str,
}

/// A single bot command.
pub trait Command {
    /// The command's name (what follows `/`).
    spec fn spec_name(&self) -> Seq<char>;

    /// The command's one-line description.
    spec fn spec_description(&self) -> Seq<char>;

    /// Whether `reply` is what the command answers to `args` in the context `ctx`, with
    /// the log as `log` before the call.
    spec fn replies(&self, args: Seq<char>, ctx: &CommandContext, log: LogRing, reply: Seq<char>) -> bool;

    fn name(&self) -> (r: &'static str)
        ensures
            r@ == self.spec_name(),
    ;

    fn description(&self) -> (r: &'static str)
        ensures
            r@ == self.spec_description(),
    ;

    /// Execute the command; `args` is text after the command name.
    /// The log is lent for reading only: what it holds and whether it can fail to read
    /// stay as they were.
    fn handle(&self, args: &str, ctx: &CommandContext, log_ring: &mut LogRing) -> (r: String)
        requires
            old(log_ring).wf(),
        ensures
            final(log_ring).wf(),
            final(log_ring).flash() == old(log_ring).flash(),
            final(log_ring).never_fails() == old(log_ring).never_fails(),
            self.replies(args@, ctx, *old(log_ring), r@),
    ;
}

/// Auto-dispatching command registry.
///
/// Generic over the command type; `Box<dyn Command>` holds commands of any type.
pub struct CommandRegistry<C: Command> {
    commands: Vec<C>,
}

impl<T: Command + ?Sized> Command for Box<T> {
    open spec fn spec_name(&self) -> Seq<char> {
        (**self).spec_name()
    }

    open spec fn spec_description(&self) -> Seq<char> {
        (**self).spec_description()
    }

    open spec fn replies(&self, args: Seq<char>, ctx: &CommandContext, log: LogRing, reply: Seq<char>) -> bool {
        (**self).replies(args, ctx, log, reply)
    }

    fn name(&self) -> (r: &'static str) {
        (**self).name()
    }

    fn description(&self) -> (r: &'static str) {
        (**self).description()
    }

    fn handle(&self, args: &str, ctx: &CommandContext, log_ring: &mut LogRing) -> (r: String) {
        (**self).handle(args, ctx, log_ring)
    }
}

/// `s` without its leading `/` characters (`trim_start_matches('/')`).
pub open spec fn strip_slashes(s: Seq<char>) -> Seq<char>
    decreases s.len(),
{
    if s.len() > 0 && s[0] == '/' {
        strip_slashes(s.skip(1))
    } else {
        s
    }
}

/// Index of the first white-space character of `s` at or after `from`, or -1.
pub open spec fn first_ws_from(s: Seq<char>, from: int) -> int
    decreases s.len() - from,
{
    if from < 0 || from >= s.len() {
        -1
    } else if is_white_space(s[from]) {
        from
    } else {
        first_ws_from(s, from + 1)
    }
}

/// A command text split at its first white space into name and arguments
/// (`split_once(char::is_whitespace)`); no white space gives empty arguments.
pub open spec fn split_at_ws(s: Seq<char>) -> (Seq<char>, Seq<char>) {
    let i = first_ws_from(s, 0);
    if i < 0 {
        (s, Seq::empty())
    } else {
        (s.take(i), s.skip(i + 1))
    }
}

/// `s` up to its first `@` (a bot user-name suffix is dropped).
pub open spec fn before_at(s: Seq<char>) -> Seq<char> {
    let i = find_char_from(s, '@', 0);
    if i < 0 {
        s
    } else {
        s.take(i)
    }
}

/// The command name a message text addresses.
pub open spec fn spec_command_name(text: Seq<char>) -> Seq<char> {
    before_at(split_at_ws(strip_slashes(text)).0)
}

/// The arguments a message text passes to its command, trimmed.
pub open spec fn spec_command_args(text: Seq<char>) -> Seq<char> {
    spec_trim(split_at_ws(strip_slashes(text)).1)
}

proof fn lemma_first_ws_range(s: Seq<char>, from: int)
    requires
        0 <= from,
    ensures
        first_ws_from(s, from) == -1 || (from <= first_ws_from(s, from) < s.len()),
    decreases s.len() - from,
{
    if from < s.len() && !is_white_space(s[from]) {
        lemma_first_ws_range(s, from + 1);
    }
}

/// Splits a message text into the command name and its trimmed arguments.
pub fn split_command_text(text: &str) -> (r: (String, String))
    ensures
        r.0@ == spec_command_name(text@),
        r.1@ == spec_command_args(text@),
{
    let cs = str_to_chars(text);
    let mut a: usize = 0;
    assert(cs@.skip(0) =~= cs@);
    while a < cs.len() && cs[a] == '/'
        invariant
            a <= cs@.len(),
            cs@ == text@,
            strip_slashes(text@) == strip_slashes(cs@.skip(a as int)),
        decreases cs@.len() - a,
    {
        assert(cs@.skip(a as int).skip(1) =~= cs@.skip(a + 1));
        a = a + 1;
    }
    let ghost t = cs@.skip(a as int);
    proof {
        assert(cs@.skip(0) =~= cs@);
    }
    let mut k: usize = a;
    while k < cs.len() && !is_white_space_exec(cs[k])
        invariant
            a <= k <= cs@.len(),
            cs@ == text@,
            t == cs@.skip(a as int),
            first_ws_from(t, 0) == first_ws_from(t, k - a),
        decreases cs@.len() - k,
    {
        assert(t[k - a] == cs@[k as int]);
        k = k + 1;
    }
    proof {
        if k < cs@.len() {
            assert(t[k - a] == cs@[k as int]);
        }
        lemma_first_ws_range(t, 0);
    }
    assert(strip_slashes(t) == t) by {
        if t.len() > 0 {
            assert(t[0] == cs@[a as int]);
        }
    }
    let name_cs = vstd::slice::slice_subrange(cs.as_slice(), a, k);
    let args_cs = if k < cs.len() {
        vstd::slice::slice_subrange(cs.as_slice(), k + 1, cs.len())
    } else {
        vstd::slice::slice_subrange(cs.as_slice(), k, k)
    };
    assert(name_cs@ =~= split_at_ws(t).0);
    assert(args_cs@ =~= split_at_ws(t).1);
    let name = match find_char_at(name_cs, '@', 0) {
        Some(j) => {
            proof {
                lemma_find_char_range(name_cs@, '@', 0);
            }
            chars_to_string(vstd::slice::slice_subrange(name_cs, 0, j))
        },
        None => chars_to_string(name_cs),
    };
    proof {
        lemma_find_char_range(name_cs@, '@', 0);
        if find_char_from(name_cs@, '@', 0) >= 0 {
            assert(name@ =~= before_at(name_cs@));
        }
    }
    let args = chars_to_string(trim_chars(args_cs).as_slice());
    (name, args)
}

impl<C: Command> CommandRegistry<C> {
    /// The registered commands' names, in registration order.
    pub closed spec fn names(&self) -> Seq<Seq<char>> {
        names_of(self.commands@)
    }

    /// The registered commands' descriptions, in registration order.
    pub closed spec fn descriptions(&self) -> Seq<Seq<char>> {
        descriptions_of(self.commands@)
    }

    /// The registered command at `k`.
    pub closed spec fn command_at(&self, k: int) -> C {
        self.commands@[k]
    }

    /// Whether `reply` answers `text`: the first registered command named as the text
    /// addresses answers it with the text's arguments, in the context `ctx` and with the log
    /// as `log`.
    pub open spec fn answers(&self, text: Seq<char>, ctx: &CommandContext, log: LogRing, reply: Seq<char>) -> bool {
        exists|k: int|
            0 <= k < self.names().len() && self.names()[k] == spec_command_name(text) && (forall|j: int|
                0 <= j < k ==> self.names()[j] != spec_command_name(text)) && #[trigger] self.command_at(k).replies(
                spec_command_args(text),
                ctx,
                log,
                reply,
            )
    }

    /// The names and the descriptions come in pairs, and each is the command's own.
    pub proof fn lemma_registry_shape(&self)
        ensures
            self.names().len() == self.descriptions().len(),
            forall|k: int| 0 <= k < self.names().len() ==> #[trigger] self.names()[k] == self.command_at(k).spec_name(),
            forall|k: int| 0 <= k < self.names().len() ==> #[trigger] self.descriptions()[k] == self.command_at(k).spec_description(),
    {
        lemma_names_of(self.commands@);
    }

    /// An empty registry.
    pub fn new() -> (r: Self)
        ensures
            r.names().len() == 0,
            r.descriptions().len() == 0,
    {
        CommandRegistry { commands: Vec::new() }
    }

    /// Register a command (at most ten).
    pub fn register(&mut self, cmd: C)
        requires
            old(self).names().len() < 10,
        ensures
            final(self).names() == old(self).names().push(cmd.spec_name()),
            final(self).descriptions() == old(self).descriptions().push(cmd.spec_description()),
    {
        let ghost before = self.commands@;
        self.commands.push(cmd);
        assert(self.commands@.drop_last() =~= before);
    }

    /// Dispatch a message text to the matching command. Returns reply or None.
    ///
    /// The text's leading `/` are dropped, it is split at its first white space into a
    /// name (without any `@bot` suffix) and arguments, and the first command with that
    /// name handles the trimmed arguments.
    pub fn dispatch(&self, text: &str, ctx: &CommandContext, log_ring: &mut LogRing) -> (r: Option<String>)
        requires
            old(log_ring).wf(),
        ensures
            final(log_ring).wf(),
            final(log_ring).flash() == old(log_ring).flash(),
            final(log_ring).never_fails() == old(log_ring).never_fails(),
            r is None <==> !self.names().contains(spec_command_name(text@)),
            r matches Some(t) ==> self.answers(text@, ctx, *old(log_ring), t@),
    {
        let (name, args) = split_command_text(text);
        proof {
            lemma_names_of(self.commands@);
        }
        let mut i: usize = 0;
        while i < self.commands.len()
            invariant
                self.names().len() == self.commands@.len(),
                self.descriptions().len() == self.commands@.len(),
                forall|k: int| 0 <= k < self.commands@.len() ==> #[trigger] self.names()[k] == self.commands@[k].spec_name(),
                forall|k: int| 0 <= k < self.commands@.len() ==> #[trigger] self.descriptions()[k] == self.commands@[k].spec_description(),
                i <= self.commands@.len(),
                name@ == spec_command_name(text@),
                args@ == spec_command_args(text@),
                log_ring.wf(),
                *log_ring == *old(log_ring),
                forall|k: int| 0 <= k < i ==> self.names()[k] != name@,
            decreases self.commands@.len() - i,
        {
            let c = &self.commands[i];
            proof {
                lemma_names_of(self.commands@);
            }
            assert(self.names()[i as int] == c.spec_name());
            if crate::strutil::str_eq(c.name(), name.as_str()) {
                let reply = c.handle(args.as_str(), ctx, log_ring);
                assert(self.command_at(i as int) == *c);
                assert(self.command_at(i as int).replies(spec_command_args(text@), ctx, *old(log_ring), reply@));
                assert(self.names()[i as int] == spec_command_name(text@));
                assert(forall|j: int| 0 <= j < i ==> self.names()[j] != spec_command_name(text@));
                assert(0 <= i < self.names().len());
                assert(self.answers(text@, ctx, *old(log_ring), reply@));
                return Some(reply);
            }
            i = i + 1;
        }
        None
    }

    /// Returns (name, description) pairs for registration with IM backend.
    pub fn command_list(&self) -> (r: Vec<(&str, &str)>)
        ensures
            r@.len() == self.names().len(),
            forall|i: int| 0 <= i < r@.len() ==> (#[trigger] r@[i]).0@ == self.names()[i] && r@[i].1@
                == self.descriptions()[i],
    {
        proof {
            lemma_names_of(self.commands@);
        }
        let mut out: Vec<(&str, &str)> = Vec::new();
        let mut i: usize = 0;
        while i < self.commands.len()
            invariant
                self.names().len() == self.commands@.len(),
                self.descriptions().len() == self.commands@.len(),
                forall|k: int| 0 <= k < self.commands@.len() ==> #[trigger] self.names()[k] == self.commands@[k].spec_name(),
                forall|k: int| 0 <= k < self.commands@.len() ==> #[trigger] self.descriptions()[k] == self.commands@[k].spec_description(),
                i <= self.commands@.len(),
                out@.len() == i,
                forall|k: int| 0 <= k < i ==> (#[trigger] out@[k]).0@ == self.names()[k] && out@[k].1@
                    == self.descriptions()[k],
            decreases self.commands@.len() - i,
        {
            let c = &self.commands[i];
            out.push((c.name(), c.description()));
            i = i + 1;
        }
        out
    }

    /// Generate /help text.
    pub fn help_text(&self) -> (r: String)
        ensures
            r@ == "Commands:\n"@ + help_lines(self.names(), self.descriptions()),
    {
        proof {
            lemma_names_of(self.commands@);
        }
        let mut out = to_owned_string("Commands:\n");
        let mut i: usize = 0;
        while i < self.commands.len()
            invariant
                self.names().len() == self.commands@.len(),
                self.descriptions().len() == self.commands@.len(),
                forall|k: int| 0 <= k < self.commands@.len() ==> #[trigger] self.names()[k] == self.commands@[k].spec_name(),
                forall|k: int| 0 <= k < self.commands@.len() ==> #[trigger] self.descriptions()[k] == self.commands@[k].spec_description(),
                i <= self.commands@.len(),
                self.names().len() == self.commands@.len(),
                self.descriptions().len() == self.commands@.len(),
                out@ == "Commands:\n"@ + help_lines(self.names().take(i as int), self.descriptions().take(i as int)),
            decreases self.commands@.len() - i,
        {
            let c = &self.commands[i];
            let ghost before = out@;
            push_str(&mut out, "/");
            push_str(&mut out, c.name());
            push_str(&mut out, " — ");
            push_str(&mut out, c.description());
            push_str(&mut out, "\n");
            proof {
                let ns = self.names().take(i + 1);
                let ds = self.descriptions().take(i + 1);
                assert(ns.drop_last() =~= self.names().take(i as int));
                assert(ds.drop_last() =~= self.descriptions().take(i as int));
                assert(ns.last() == c.spec_name());
                assert(ds.last() == c.spec_description());
            }
            assert(out@ =~= "Commands:\n"@ + help_lines(self.names().take(i + 1), self.descriptions().take(i + 1)));
            i = i + 1;
        }
        assert(self.names().take(self.commands@.len() as int) =~= self.names());
        assert(self.descriptions().take(self.commands@.len() as int) =~= self.descriptions());
        out
    }
}

/// The names of a list of commands.
spec fn names_of<C: Command>(cs: Seq<C>) -> Seq<Seq<char>>
    decreases cs.len(),
{
    if cs.len() == 0 {
        Seq::empty()
    } else {
        names_of(cs.drop_last()).push(cs.last().spec_name())
    }
}

/// The descriptions of a list of commands.
spec fn descriptions_of<C: Command>(cs: Seq<C>) -> Seq<Seq<char>>
    decreases cs.len(),
{
    if cs.len() == 0 {
        Seq::empty()
    } else {
        descriptions_of(cs.drop_last()).push(cs.last().spec_description())
    }
}

proof fn lemma_names_of<C: Command>(cs: Seq<C>)
    ensures
        names_of(cs).len() == cs.len(),
        descriptions_of(cs).len() == cs.len(),
        forall|i: int| 0 <= i < cs.len() ==> #[trigger] names_of(cs)[i] == cs[i].spec_name(),
        forall|i: int| 0 <= i < cs.len() ==> #[trigger] descriptions_of(cs)[i] == cs[i].spec_description(),
    decreases cs.len(),
{
    if cs.len() > 0 {
        lemma_names_of(cs.drop_last());
        assert forall|i: int| 0 <= i < cs.len() implies #[trigger] names_of(cs)[i] == cs[i].spec_name() by {
            if i < cs.len() - 1 {
                assert(cs.drop_last()[i] == cs[i]);
            }
        }
        assert forall|i: int| 0 <= i < cs.len() implies #[trigger] descriptions_of(cs)[i] == cs[i].spec_description() by {
            if i < cs.len() - 1 {
                assert(cs.drop_last()[i] == cs[i]);
            }
        }
    }
}

/// The `/help` lines: `/<name> — <description>` for each command.
pub open spec fn help_lines(names: Seq<Seq<char>>, descs: Seq<Seq<char>>) -> Seq<char>
    decreases names.len(),
{
    if names.len() == 0 {
        Seq::empty()
    } else {
        help_lines(names.drop_last(), descs.drop_last()) + "/"@ + names.last() + " — "@ + descs.last() + "\n"@
    }
}

impl<C: Command> Default for CommandRegistry<C> {
    fn default() -> (r: Self)
        ensures
            r.names().len() == 0,
            r.descriptions().len() == 0,
    {
        Self::new()
    }
}

} // verus!
