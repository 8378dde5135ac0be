//! Fixed-size event history ring buffer with flash persistence.
//!
//! Each entry is one 256-byte record: a 16-byte header (magic, sequence number, payload
//! length, FNV-1a checksum) and a tab-separated, escaped text payload.

use crate::strutil::{
    chars_eq, find_char_at, find_char_from, lemma_find_char_range, new_string, push_char, push_decimal,
    push_str, spec_decimal, str_to_chars, to_owned_string, utf8_to_string,
};
use vstd::arithmetic::div_mod::{lemma_fundamental_div_mod, lemma_mod_multiples_basic};
use vstd::prelude::*;

verus! {

pub const FLASH_LOG_RECORD_SIZE: usize = 256;

pub const LOG_PAGE_SIZE: usize = 16;

const DEFAULT_VOLATILE_LOG_BYTES: usize = 16384;

const DEFAULT_VOLATILE_ERASE_BYTES: usize = 4096;

pub const FLASH_LOG_MAGIC: u32 = 0x534D_4C47;

pub const FLASH_LOG_HEADER_SIZE: usize = 16;

pub const FLASH_LOG_PAYLOAD_SIZE: usize = 240;

/// What an event log entry is about.
#[derive(Debug, Clone, Copy, PartialEq, Eq, Structural)]
pub enum LogKind {
    Sms,
    Call,
    System,
    Network,
    User,
    Ota,
}

/// The stored name of a kind.
pub open spec fn kind_name(k: LogKind) -> Seq<char> {
    match k {
        LogKind::Sms => "sms"@,
        LogKind::Call => "call"@,
        LogKind::System => "system"@,
        LogKind::Network => "network"@,
        LogKind::User => "user"@,
        LogKind::Ota => "ota"@,
    }
}

/// The byte length of the stored name of a kind.
pub open spec fn kind_name_len(k: LogKind) -> int {
    match k {
        LogKind::Sms => 3,
        LogKind::Call => 4,
        LogKind::System => 6,
        LogKind::Network => 7,
        LogKind::User => 4,
        LogKind::Ota => 3,
    }
}

/// The kind stored under a name.
pub open spec fn spec_parse_kind(s: Seq<char>) -> Option<LogKind> {
    if s == "sms"@ {
        Some(LogKind::Sms)
    } else if s == "call"@ {
        Some(LogKind::Call)
    } else if s == "system"@ {
        Some(LogKind::System)
    } else if s == "network"@ {
        Some(LogKind::Network)
    } else if s == "user"@ {
        Some(LogKind::User)
    } else if s == "ota"@ {
        Some(LogKind::Ota)
    } else {
        None
    }
}

impl LogKind {
    /// The stored name of the kind.
    pub fn as_str(self) -> (r: &'static str)
        ensures
            r@ == kind_name(self),
    {
        match self {
            LogKind::Sms => "sms",
            LogKind::Call => "call",
            LogKind::System => "system",
            LogKind::Network => "network",
            LogKind::User => "user",
            LogKind::Ota => "ota",
        }
    }

    /// The short display label of the kind.
    pub fn label(self) -> (r: &'static str)
        ensures
            r@ == (match self {
                LogKind::Sms => "SMS"@,
                LogKind::Call => "CALL"@,
                LogKind::System => "SYS"@,
                LogKind::Network => "NET"@,
                LogKind::User => "USER"@,
                LogKind::Ota => "OTA"@,
            }),
    {
        match self {
            LogKind::Sms => "SMS",
            LogKind::Call => "CALL",
            LogKind::System => "SYS",
            LogKind::Network => "NET",
            LogKind::User => "USER",
            LogKind::Ota => "OTA",
        }
    }

    fn parse(s: &[char]) -> (r: Option<LogKind>)
        ensures
            r == spec_parse_kind(s@),
    {
        let sms = ['s', 'm', 's'];
        let call = ['c', 'a', 'l', 'l'];
        let system = ['s', 'y', 's', 't', 'e', 'm'];
        let network = ['n', 'e', 't', 'w', 'o', 'r', 'k'];
        let user = ['u', 's', 'e', 'r'];
        let ota = ['o', 't', 'a'];
        proof {
            reveal_strlit("sms");
            reveal_strlit("call");
            reveal_strlit("system");
            reveal_strlit("network");
            reveal_strlit("user");
            reveal_strlit("ota");
            assert(sms@ =~= "sms"@);
            assert(call@ =~= "call"@);
            assert(system@ =~= "system"@);
            assert(network@ =~= "network"@);
            assert(user@ =~= "user"@);
            assert(ota@ =~= "ota"@);
        }
        if chars_eq(s, sms.as_slice()) {
            Some(LogKind::Sms)
        } else if chars_eq(s, call.as_slice()) {
            Some(LogKind::Call)
        } else if chars_eq(s, system.as_slice()) {
            Some(LogKind::System)
        } else if chars_eq(s, network.as_slice()) {
            Some(LogKind::Network)
        } else if chars_eq(s, user.as_slice()) {
            Some(LogKind::User)
        } else if chars_eq(s, ota.as_slice()) {
            Some(LogKind::Ota)
        } else {
            None
        }
    }
}

/// One event in the history.
#[derive(Debug, Clone, PartialEq, Eq)]
pub struct LogEntry {
    pub kind: LogKind,
    pub sender: String,
    /// First 80 characters of the body (or the event detail).
    pub body_preview: String,
    pub timestamp: String,
    pub forwarded: bool,
}

/// Mathematical model of a log entry.
pub struct SpecLogEntry {
    pub kind: LogKind,
    pub sender: Seq<char>,
    pub body_preview: Seq<char>,
    pub timestamp: Seq<char>,
    pub forwarded: bool,
}

impl View for LogEntry {
    type V = SpecLogEntry;

    open spec fn view(&self) -> SpecLogEntry {
        SpecLogEntry {
            kind: self.kind,
            sender: self.sender@,
            body_preview: self.body_preview@,
            timestamp: self.timestamp@,
            forwarded: self.forwarded,
        }
    }
}

impl LogEntry {
    /// An SMS entry.
    pub fn sms(sender: String, body_preview: String, timestamp: String, forwarded: bool) -> (r: Self)
        ensures
            r@ == (SpecLogEntry {
                kind: LogKind::Sms,
                sender: sender@,
                body_preview: body_preview@,
                timestamp: timestamp@,
                forwarded,
            }),
    {
        LogEntry { kind: LogKind::Sms, sender, body_preview, timestamp, forwarded }
    }

    /// `OK` for a forwarded (successful) entry, `FAIL` otherwise.
    pub fn status_marker(&self) -> (r: &'static str)
        ensures
            r@ == (if self.forwarded { "OK"@ } else { "FAIL"@ }),
    {
        if self.forwarded {
            "OK"
        } else {
            "FAIL"
        }
    }
}

/// An event before it is stamped with a time.
#[derive(Debug, Clone, PartialEq, Eq)]
pub struct LogEvent {
    pub kind: LogKind,
    pub sender: String,
    pub body_preview: String,
    pub forwarded: bool,
}

/// Mathematical model of an event.
pub struct SpecLogEvent {
    pub kind: LogKind,
    pub sender: Seq<char>,
    pub body_preview: Seq<char>,
    pub forwarded: bool,
}

impl View for LogEvent {
    type V = SpecLogEvent;

    open spec fn view(&self) -> SpecLogEvent {
        SpecLogEvent {
            kind: self.kind,
            sender: self.sender@,
            body_preview: self.body_preview@,
            forwarded: self.forwarded,
        }
    }
}

impl LogEvent {
    /// An event of the given kind: subject, detail and outcome.
    pub fn new(kind: LogKind, subject: &str, detail: &str, ok: bool) -> (r: Self)
        ensures
            r@ == (SpecLogEvent { kind, sender: subject@, body_preview: detail@, forwarded: ok }),
    {
        LogEvent {
            kind,
            sender: to_owned_string(subject),
            body_preview: to_owned_string(detail),
            forwarded: ok,
        }
    }

    /// A successful system event.
    pub fn system(subject: &str, detail: &str) -> (r: Self)
        ensures
            r@ == (SpecLogEvent {
                kind: LogKind::System,
                sender: subject@,
                body_preview: detail@,
                forwarded: true,
            }),
    {
        Self::new(LogKind::System, subject, detail, true)
    }

    /// A network event.
    pub fn network(subject: &str, detail: &str, ok: bool) -> (r: Self)
        ensures
            r@ == (SpecLogEvent {
                kind: LogKind::Network,
                sender: subject@,
                body_preview: detail@,
                forwarded: ok,
            }),
    {
        Self::new(LogKind::Network, subject, detail, ok)
    }

    /// A user (command) event.
    pub fn user(subject: &str, detail: &str, ok: bool) -> (r: Self)
        ensures
            r@ == (SpecLogEvent {
                kind: LogKind::User,
                sender: subject@,
                body_preview: detail@,
                forwarded: ok,
            }),
    {
        Self::new(LogKind::User, subject, detail, ok)
    }

    /// A firmware-update event.
    pub fn ota(subject: &str, detail: &str, ok: bool) -> (r: Self)
        ensures
            r@ == (SpecLogEvent {
                kind: LogKind::Ota,
                sender: subject@,
                body_preview: detail@,
                forwarded: ok,
            }),
    {
        Self::new(LogKind::Ota, subject, detail, ok)
    }

    /// The entry for this event at the given time.
    pub fn at(self, timestamp: &str) -> (r: LogEntry)
        ensures
            r@ == (SpecLogEntry {
                kind: self@.kind,
                sender: self@.sender,
                body_preview: self@.body_preview,
                timestamp: timestamp@,
                forwarded: self@.forwarded,
            }),
    {
        LogEntry {
            kind: self.kind,
            sender: self.sender,
            body_preview: self.body_preview,
            timestamp: to_owned_string(timestamp),
            forwarded: self.forwarded,
        }
    }
}

// ---------------------------------------------------------------------------
// Field escaping
// ---------------------------------------------------------------------------

/// Backslash, tab, newline and carriage return are written as two-character escapes.
pub open spec fn is_escaped_char(c: char) -> bool {
    c == '\\' || c == '\t' || c == '\n' || c == '\r'
}

/// The escape of one character.
pub open spec fn escape_char(c: char) -> Seq<char> {
    if c == '\\' {
        seq!['\\', '\\']
    } else if c == '\t' {
        seq!['\\', 't']
    } else if c == '\n' {
        seq!['\\', 'n']
    } else if c == '\r' {
        seq!['\\', 'r']
    } else {
        seq![c]
    }
}

/// The escape of a field.
pub open spec fn spec_escape(cs: Seq<char>) -> Seq<char>
    decreases cs.len(),
{
    if cs.len() == 0 {
        Seq::empty()
    } else {
        escape_char(cs[0]) + spec_escape(cs.skip(1))
    }
}

/// UTF-8 length of a character (`char::len_utf8`).
pub open spec fn utf8_len(c: char) -> int {
    let v = c as u32;
    if v < 0x80 {
        1
    } else if v < 0x800 {
        2
    } else if v < 0x10000 {
        3
    } else {
        4
    }
}

/// UTF-8 length of the escape of one character.
pub open spec fn escape_len(c: char) -> int {
    if is_escaped_char(c) { 2 } else { utf8_len(c) }
}

/// UTF-8 length of the escape of a field.
pub open spec fn escaped_len(cs: Seq<char>) -> int
    decreases cs.len(),
{
    if cs.len() == 0 {
        0
    } else {
        escape_len(cs[0]) + escaped_len(cs.skip(1))
    }
}

/// The escape of the longest prefix of `cs` whose escape fits in `budget` bytes.
pub open spec fn truncated_escape(cs: Seq<char>, budget: int) -> Seq<char>
    decreases cs.len(),
{
    if cs.len() == 0 || escape_len(cs[0]) > budget {
        Seq::empty()
    } else {
        escape_char(cs[0]) + truncated_escape(cs.skip(1), budget - escape_len(cs[0]))
    }
}

/// Undoes `spec_escape`; a backslash before any other character stays as written, and a
/// trailing backslash stays too.
pub open spec fn spec_unescape(cs: Seq<char>) -> Seq<char>
    decreases cs.len(),
{
    if cs.len() == 0 {
        Seq::empty()
    } else if cs[0] != '\\' {
        seq![cs[0]] + spec_unescape(cs.skip(1))
    } else if cs.len() == 1 {
        seq!['\\']
    } else {
        let n = cs[1];
        let head = if n == '\\' {
            seq!['\\']
        } else if n == 't' {
            seq!['\t']
        } else if n == 'n' {
            seq!['\n']
        } else if n == 'r' {
            seq!['\r']
        } else {
            seq!['\\', n]
        };
        head + spec_unescape(cs.skip(2))
    }
}

fn char_utf8_len(c: char) -> (n: usize)
    ensures
        n == utf8_len(c),
{
    let v = c as u32;
    if v < 0x80 {
        1
    } else if v < 0x800 {
        2
    } else if v < 0x10000 {
        3
    } else {
        4
    }
}

fn escape_len_exec(c: char) -> (n: usize)
    ensures
        n == escape_len(c),
{
    if c == '\\' || c == '\t' || c == '\n' || c == '\r' {
        2
    } else {
        char_utf8_len(c)
    }
}

fn push_escaped_char(out: &mut String, ch: char)
    ensures
        final(out)@ == old(out)@ + escape_char(ch),
{
    if ch == '\\' {
        push_char(out, '\\');
        push_char(out, '\\');
    } else if ch == '\t' {
        push_char(out, '\\');
        push_char(out, 't');
    } else if ch == '\n' {
        push_char(out, '\\');
        push_char(out, 'n');
    } else if ch == '\r' {
        push_char(out, '\\');
        push_char(out, 'r');
    } else {
        push_char(out, ch);
    }
    assert(final(out)@ =~= old(out)@ + escape_char(ch));
}

proof fn lemma_escaped_len_bound(cs: Seq<char>)
    ensures
        0 <= escaped_len(cs) <= 4 * cs.len(),
    decreases cs.len(),
{
    if cs.len() > 0 {
        lemma_escaped_len_bound(cs.skip(1));
    }
}

fn escaped_field_len(input: &str) -> (n: usize)
    requires
        input@.len() < 0x1000_0000,
    ensures
        n == escaped_len(input@),
        n <= 4 * input@.len(),
{
    let cs = str_to_chars(input);
    let mut total: usize = 0;
    let mut i: usize = 0;
    proof {
        lemma_escaped_len_bound(cs@);
    }
    assert(cs@.skip(0) =~= cs@);
    while i < cs.len()
        invariant
            cs@ == input@,
            cs@.len() < 0x1000_0000,
            i <= cs@.len(),
            total + escaped_len(cs@.skip(i as int)) == escaped_len(cs@),
            0 <= escaped_len(cs@) <= 4 * cs@.len(),
        decreases cs@.len() - i,
    {
        proof {
            lemma_escaped_len_bound(cs@.skip(i + 1));
            assert(cs@.skip(i as int).skip(1) =~= cs@.skip(i + 1));
        }
        total = total + escape_len_exec(cs[i]);
        i = i + 1;
    }
    assert(cs@.skip(i as int) =~= Seq::<char>::empty());
    total
}

fn push_escaped_field(out: &mut String, input: &str)
    ensures
        final(out)@ == old(out)@ + spec_escape(input@),
{
    let cs = str_to_chars(input);
    let ghost start = out@;
    let mut i: usize = 0;
    assert(cs@.skip(0) =~= cs@);
    while i < cs.len()
        invariant
            cs@ == input@,
            i <= cs@.len(),
            out@ + spec_escape(cs@.skip(i as int)) == start + spec_escape(cs@),
        decreases cs@.len() - i,
    {
        let ghost before = out@;
        assert(cs@.skip(i as int).skip(1) =~= cs@.skip(i + 1));
        push_escaped_char(out, cs[i]);
        i = i + 1;
        assert(out@ + spec_escape(cs@.skip(i as int)) =~= before + spec_escape(cs@.skip(i - 1)));
    }
    assert(cs@.skip(i as int) =~= Seq::<char>::empty());
    assert(out@ =~= start + spec_escape(cs@));
}

fn push_escaped_field_truncated(out: &mut String, input: &str, max_escaped_bytes: usize)
    ensures
        final(out)@ == old(out)@ + truncated_escape(input@, max_escaped_bytes as int),
{
    let cs = str_to_chars(input);
    let ghost start = out@;
    let mut used: usize = 0;
    let mut i: usize = 0;
    assert(cs@.skip(0) =~= cs@);
    while i < cs.len()
        invariant
            start == old(out)@,
            cs@ == input@,
            i <= cs@.len(),
            used <= max_escaped_bytes,
            out@ + truncated_escape(cs@.skip(i as int), max_escaped_bytes - used) == start
                + truncated_escape(cs@, max_escaped_bytes as int),
        decreases cs@.len() - i,
    {
        let encoded_len = escape_len_exec(cs[i]);
        assert(cs@.skip(i as int)[0] == cs@[i as int]);
        if encoded_len > max_escaped_bytes - used {
            assert(truncated_escape(cs@.skip(i as int), max_escaped_bytes - used) =~= Seq::<char>::empty());
            assert(out@ =~= start + truncated_escape(cs@, max_escaped_bytes as int));
            return;
        }
        let ghost before = out@;
        assert(cs@.skip(i as int).skip(1) =~= cs@.skip(i + 1));
        push_escaped_char(out, cs[i]);
        used = used + encoded_len;
        i = i + 1;
        assert(out@ + truncated_escape(cs@.skip(i as int), max_escaped_bytes - used) =~= before
            + truncated_escape(cs@.skip(i - 1), max_escaped_bytes - (used - encoded_len)));
    }
    assert(cs@.skip(i as int) =~= Seq::<char>::empty());
    assert(out@ =~= start + truncated_escape(cs@, max_escaped_bytes as int));
}

fn unescape_chars(cs: &[char]) -> (r: String)
    ensures
        r@ == spec_unescape(cs@),
{
    let mut out = new_string();
    let mut i: usize = 0;
    assert(cs@.skip(0) =~= cs@);
    assert(out@ + spec_unescape(cs@) =~= spec_unescape(cs@));
    while i < cs.len()
        invariant
            i <= cs@.len(),
            out@ + spec_unescape(cs@.skip(i as int)) == spec_unescape(cs@),
        decreases cs@.len() - i,
    {
        let ghost before = out@;
        let ghost rest = cs@.skip(i as int);
        let ch = cs[i];
        assert(rest[0] == ch);
        if ch != '\\' {
            push_char(&mut out, ch);
            i = i + 1;
            assert(rest.skip(1) =~= cs@.skip(i as int));
        } else if i + 1 >= cs.len() {
            push_char(&mut out, '\\');
            i = i + 1;
            assert(cs@.skip(i as int) =~= Seq::<char>::empty());
        } else {
            let n = cs[i + 1];
            assert(rest[1] == n);
            if n == '\\' {
                push_char(&mut out, '\\');
            } else if n == 't' {
                push_char(&mut out, '\t');
            } else if n == 'n' {
                push_char(&mut out, '\n');
            } else if n == 'r' {
                push_char(&mut out, '\r');
            } else {
                push_char(&mut out, '\\');
                push_char(&mut out, n);
            }
            i = i + 2;
            assert(rest.skip(2) =~= cs@.skip(i as int));
        }
        assert(out@ + spec_unescape(cs@.skip(i as int)) =~= before + spec_unescape(rest));
    }
    assert(cs@.skip(i as int) =~= Seq::<char>::empty());
    assert(out@ =~= spec_unescape(cs@));
    out
}

/// Unescaping an escaped field gives the field back.
pub proof fn lemma_unescape_escape(cs: Seq<char>)
    ensures
        spec_unescape(spec_escape(cs)) == cs,
    decreases cs.len(),
{
    if cs.len() > 0 {
        lemma_unescape_escape(cs.skip(1));
        let e = spec_escape(cs);
        let rest = spec_escape(cs.skip(1));
        let c = cs[0];
        let head = escape_char(c);
        assert(e == head + rest);
        if is_escaped_char(c) {
            assert((head + rest).skip(2) =~= rest);
        } else {
            assert((head + rest).skip(1) =~= rest);
        }
        assert(cs =~= seq![c] + cs.skip(1));
    }
}

/// An escaped field holds no tab.
pub proof fn lemma_escape_has_no_tab(cs: Seq<char>)
    ensures
        forall|i: int| 0 <= i < spec_escape(cs).len() ==> spec_escape(cs)[i] != '\t',
    decreases cs.len(),
{
    if cs.len() > 0 {
        lemma_escape_has_no_tab(cs.skip(1));
        let head = escape_char(cs[0]);
        let rest = spec_escape(cs.skip(1));
        assert forall|i: int| 0 <= i < spec_escape(cs).len() implies spec_escape(cs)[i] != '\t' by {
            if i >= head.len() {
                assert(spec_escape(cs)[i] == rest[i - head.len()]);
            }
        }
    }
}

/// With a budget that covers the whole escape, nothing is cut.
pub proof fn lemma_truncated_escape_full(cs: Seq<char>, budget: int)
    requires
        escaped_len(cs) <= budget,
    ensures
        truncated_escape(cs, budget) == spec_escape(cs),
    decreases cs.len(),
{
    if cs.len() > 0 {
        lemma_escaped_len_bound(cs.skip(1));
        lemma_truncated_escape_full(cs.skip(1), budget - escape_len(cs[0]));
    }
}


// ---------------------------------------------------------------------------
// Errors
// ---------------------------------------------------------------------------

/// Failures of the flash-backed log.
#[derive(Debug)]
pub enum FlashLogError {
    OutOfBounds,
    InvalidGeometry { size: usize, erase_size: usize },
    EntryTooLarge { len: usize, max: usize },
    PartitionNotFound(String),
    Storage(String),
}

/// The text shown for a log storage error.
pub open spec fn flash_error_text(e: &FlashLogError) -> Seq<char> {
    match e {
        FlashLogError::OutOfBounds => "flash log storage out of bounds"@,
        FlashLogError::InvalidGeometry { size, erase_size } => "invalid flash log geometry: size="@
            + spec_decimal(*size as nat) + ", erase_size="@ + spec_decimal(*erase_size as nat),
        FlashLogError::EntryTooLarge { len, max } => "flash log entry too large: "@ + spec_decimal(*len as nat)
            + " bytes (max "@ + spec_decimal(*max as nat) + ")"@,
        FlashLogError::PartitionNotFound(label) => "flash log partition not found: "@ + label@,
        FlashLogError::Storage(e) => "flash log storage error: "@ + e@,
    }
}

impl FlashLogError {
    /// The text shown for the error.
    pub fn message(&self) -> (r: String)
        ensures
            r@ == flash_error_text(self),
    {
        let mut out = new_string();
        match self {
            FlashLogError::OutOfBounds => {
                push_str(&mut out, "flash log storage out of bounds");
            },
            FlashLogError::InvalidGeometry { size, erase_size } => {
                push_str(&mut out, "invalid flash log geometry: size=");
                push_decimal(&mut out, *size as u64);
                push_str(&mut out, ", erase_size=");
                push_decimal(&mut out, *erase_size as u64);
            },
            FlashLogError::EntryTooLarge { len, max } => {
                push_str(&mut out, "flash log entry too large: ");
                push_decimal(&mut out, *len as u64);
                push_str(&mut out, " bytes (max ");
                push_decimal(&mut out, *max as u64);
                push_str(&mut out, ")");
            },
            FlashLogError::PartitionNotFound(label) => {
                push_str(&mut out, "flash log partition not found: ");
                push_str(&mut out, label.as_str());
            },
            FlashLogError::Storage(e) => {
                push_str(&mut out, "flash log storage error: ");
                push_str(&mut out, e.as_str());
            },
        }
        assert(out@ =~= (match self {
            FlashLogError::OutOfBounds => "flash log storage out of bounds"@,
            FlashLogError::InvalidGeometry { size, erase_size } => "invalid flash log geometry: size="@
                + spec_decimal(*size as nat) + ", erase_size="@ + spec_decimal(*erase_size as nat),
            FlashLogError::EntryTooLarge { len, max } => "flash log entry too large: "@
                + spec_decimal(*len as nat) + " bytes (max "@ + spec_decimal(*max as nat) + ")"@,
            FlashLogError::PartitionNotFound(label) => "flash log partition not found: "@ + label@,
            FlashLogError::Storage(e) => "flash log storage error: "@ + e@,
        }));
        out
    }
}

// ---------------------------------------------------------------------------
// Payload
// ---------------------------------------------------------------------------

/// Text fields short enough that their escaped lengths are counted without overflow.
pub open spec fn entry_within_limits(e: SpecLogEntry) -> bool {
    e.timestamp.len() < 0x1000_0000 && e.sender.len() < 0x1000_0000 && e.body_preview.len()
        < 0x1000_0000
}

/// Bytes of the payload besides the sender and the body: version, kind, flag, escaped
/// time stamp, and five tabs.
pub open spec fn payload_base_len(e: SpecLogEntry) -> int {
    7 + kind_name_len(e.kind) + escaped_len(e.timestamp)
}

/// Bytes left for the sender and the body.
pub open spec fn payload_available(e: SpecLogEntry) -> int {
    FLASH_LOG_PAYLOAD_SIZE - payload_base_len(e)
}

/// Escaped bytes granted to the sender: all of it when it fits, else what is left.
pub open spec fn sender_budget(e: SpecLogEntry) -> int {
    let sl = escaped_len(e.sender);
    if sl <= payload_available(e) { sl } else { payload_available(e) }
}

/// Escaped bytes granted to the body: what the sender leaves.
pub open spec fn body_budget(e: SpecLogEntry) -> int {
    let sl = escaped_len(e.sender);
    if sl <= payload_available(e) { payload_available(e) - sl } else { 0 }
}

/// The payload text: `1`, kind, `1`/`0`, escaped time stamp, sender and body (cut to
/// their budgets), separated by tabs.
pub open spec fn payload_text(e: SpecLogEntry) -> Seq<char> {
    seq!['1', '\t'] + kind_name(e.kind) + seq!['\t'] + (if e.forwarded { seq!['1'] } else { seq!['0'] })
        + seq!['\t'] + spec_escape(e.timestamp) + seq!['\t'] + truncated_escape(e.sender, sender_budget(e))
        + seq!['\t'] + truncated_escape(e.body_preview, body_budget(e))
}

fn kind_len_exec(k: LogKind) -> (n: usize)
    ensures
        n == kind_name_len(k),
{
    match k {
        LogKind::Sms => 3,
        LogKind::Call => 4,
        LogKind::System => 6,
        LogKind::Network => 7,
        LogKind::User => 4,
        LogKind::Ota => 3,
    }
}

/// The payload bytes of an entry, or `EntryTooLarge` when the fixed part alone exceeds
/// the payload size.
pub open spec fn encode_payload_ok(e: SpecLogEntry) -> bool {
    payload_base_len(e) <= FLASH_LOG_PAYLOAD_SIZE
}

impl LogEntry {
    fn encode_payload(&self) -> (r: Result<Vec<u8>, FlashLogError>)
        requires
            entry_within_limits(self@),
        ensures
            encode_payload_ok(self@) ==> (r matches Ok(b) && b@ == vstd::utf8::encode_utf8(payload_text(self@))),
            !encode_payload_ok(self@) ==> (r matches Err(FlashLogError::EntryTooLarge { len, max })
                && len == payload_base_len(self@) && max == FLASH_LOG_PAYLOAD_SIZE),
    {
        let kind = self.kind.as_str();
        let forwarded = if self.forwarded { "1" } else { "0" };
        let timestamp_len = escaped_field_len(self.timestamp.as_str());
        let base_len = 1 + 1 + kind_len_exec(self.kind) + 1 + 1 + 1 + timestamp_len + 1 + 1;
        if base_len > FLASH_LOG_PAYLOAD_SIZE {
            return Err(FlashLogError::EntryTooLarge { len: base_len, max: FLASH_LOG_PAYLOAD_SIZE });
        }
        let available = FLASH_LOG_PAYLOAD_SIZE - base_len;
        let sender_len = escaped_field_len(self.sender.as_str());
        let (sender_budget, body_budget) = if sender_len <= available {
            (sender_len, available - sender_len)
        } else {
            (available, 0)
        };
        let mut payload = new_string();
        push_char(&mut payload, '1');
        push_char(&mut payload, '\t');
        push_str(&mut payload, kind);
        push_char(&mut payload, '\t');
        push_str(&mut payload, forwarded);
        push_char(&mut payload, '\t');
        push_escaped_field(&mut payload, self.timestamp.as_str());
        push_char(&mut payload, '\t');
        push_escaped_field_truncated(&mut payload, self.sender.as_str(), sender_budget);
        push_char(&mut payload, '\t');
        push_escaped_field_truncated(&mut payload, self.body_preview.as_str(), body_budget);
        proof {
            reveal_strlit("1");
            reveal_strlit("0");
        }
        assert(payload@ =~= payload_text(self@));
        let bytes = vstd::slice::slice_to_vec(payload.as_str().as_bytes());
        Ok(bytes)
    }
}

// ---------------------------------------------------------------------------
// Payload decoding
// ---------------------------------------------------------------------------

/// `cs` cut at every tab (`str::split('\t')`): one more field than there are tabs.
pub open spec fn spec_split_tabs(cs: Seq<char>) -> Seq<Seq<char>>
    decreases cs.len(),
{
    let i = find_char_from(cs, '\t', 0);
    if i < 0 || i >= cs.len() {
        seq![cs]
    } else {
        seq![cs.take(i)] + spec_split_tabs(cs.skip(i + 1))
    }
}

/// The entry spelled by the payload fields.
pub open spec fn spec_decode_fields(f: Seq<Seq<char>>) -> Option<SpecLogEntry> {
    if f.len() != 6 || f[0] != seq!['1'] {
        None
    } else {
        match spec_parse_kind(f[1]) {
            None => None,
            Some(k) => Some(
                SpecLogEntry {
                    kind: k,
                    forwarded: f[2] == seq!['1'],
                    timestamp: spec_unescape(f[3]),
                    sender: spec_unescape(f[4]),
                    body_preview: spec_unescape(f[5]),
                },
            ),
        }
    }
}

/// The entry stored in payload bytes, if they are UTF-8 text of six tab-separated fields
/// starting with version `1` and a known kind.
pub open spec fn spec_decode_payload(b: Seq<u8>) -> Option<SpecLogEntry> {
    if !vstd::utf8::valid_utf8(b) {
        None
    } else {
        spec_decode_fields(spec_split_tabs(vstd::utf8::decode_utf8(b)))
    }
}

fn split_tabs(cs: &[char]) -> (r: Vec<Vec<char>>)
    ensures
        r@.map_values(|v: Vec<char>| v@) == spec_split_tabs(cs@),
{
    let mut fields: Vec<Vec<char>> = Vec::new();
    let mut start: usize = 0;
    assert(cs@.skip(0) =~= cs@);
    loop
        invariant
            start <= cs@.len(),
            fields@.map_values(|v: Vec<char>| v@) + spec_split_tabs(cs@.skip(start as int))
                == spec_split_tabs(cs@),
        decreases cs@.len() - start,
    {
        let ghost rest = cs@.skip(start as int);
        let ghost before = fields@.map_values(|v: Vec<char>| v@);
        proof {
            lemma_find_char_range(rest, '\t', 0);
        }
        match find_char_at(cs, '\t', start) {
            Some(i) => {
                proof {
                    lemma_find_shift(cs@, '\t', start as int);
                    lemma_find_char_range(cs@, '\t', start as int);
                }
                let field = vstd::slice::slice_to_vec(vstd::slice::slice_subrange(cs, start, i));
                fields.push(field);
                assert(rest.take(i - start) =~= field@);
                assert(rest.skip(i - start + 1) =~= cs@.skip(i + 1));
                assert(i < cs.len());
                start = i + 1;
                assert(fields@.map_values(|v: Vec<char>| v@) =~= before.push(field@));
                assert(fields@.map_values(|v: Vec<char>| v@) + spec_split_tabs(cs@.skip(start as int))
                    =~= before + spec_split_tabs(rest));
            },
            None => {
                proof {
                    lemma_find_shift(cs@, '\t', start as int);
                }
                let field = vstd::slice::slice_to_vec(vstd::slice::slice_subrange(cs, start, cs.len()));
                fields.push(field);
                assert(rest =~= field@);
                assert(fields@.map_values(|v: Vec<char>| v@) =~= before.push(field@));
                assert(fields@.map_values(|v: Vec<char>| v@) =~= spec_split_tabs(cs@));
                return fields;
            },
        }
    }
}

/// Searching from `from` in `s` is searching from 0 in the rest of `s`, shifted.
proof fn lemma_find_shift(s: Seq<char>, c: char, from: int)
    requires
        0 <= from <= s.len(),
    ensures
        find_char_from(s, c, from) == -1 <==> find_char_from(s.skip(from), c, 0) == -1,
        find_char_from(s, c, from) != -1 ==> find_char_from(s, c, from) - from == find_char_from(
            s.skip(from),
            c,
            0,
        ),
    decreases s.len() - from,
{
    lemma_find_char_range(s, c, from);
    lemma_find_char_range(s.skip(from), c, 0);
    let a = find_char_from(s, c, from);
    let b = find_char_from(s.skip(from), c, 0);
    if a == -1 {
        if b != -1 {
            assert(s.skip(from)[b] == s[from + b]);
        }
    } else {
        if b == -1 {
            assert(s.skip(from)[a - from] == s[a]);
        } else {
            if b < a - from {
                assert(s.skip(from)[b] == s[from + b]);
            } else if b > a - from {
                assert(s.skip(from)[a - from] == s[a]);
            }
        }
    }
}

impl LogEntry {
    fn decode_payload(bytes: &[u8]) -> (r: Option<LogEntry>)
        ensures
            match spec_decode_payload(bytes@) {
                Some(e) => r matches Some(x) && x@ == e,
                None => r is None,
            },
    {
        let text = match utf8_to_string(bytes) {
            Some(t) => t,
            None => return None,
        };
        let cs = str_to_chars(text.as_str());
        let parts = split_tabs(cs.as_slice());
        let ghost f = parts@.map_values(|v: Vec<char>| v@);
        if parts.len() != 6 {
            return None;
        }
        assert(f[0] == parts@[0]@);
        let one = ['1'];
        assert(one@ =~= seq!['1']);
        if !chars_eq(parts[0].as_slice(), one.as_slice()) {
            return None;
        }
        assert(f[1] == parts@[1]@);
        let kind = match LogKind::parse(parts[1].as_slice()) {
            Some(k) => k,
            None => return None,
        };
        assert(f[2] == parts@[2]@);
        assert(f[3] == parts@[3]@);
        assert(f[4] == parts@[4]@);
        assert(f[5] == parts@[5]@);
        let forwarded = chars_eq(parts[2].as_slice(), one.as_slice());
        Some(LogEntry {
            kind,
            forwarded,
            timestamp: unescape_chars(parts[3].as_slice()),
            sender: unescape_chars(parts[4].as_slice()),
            body_preview: unescape_chars(parts[5].as_slice()),
        })
    }
}


// ---------------------------------------------------------------------------
// Payload laws
// ---------------------------------------------------------------------------

/// `cs` holds no tab.
pub open spec fn tab_free(cs: Seq<char>) -> bool {
    forall|i: int| 0 <= i < cs.len() ==> cs[i] != '\t'
}

proof fn lemma_split_tab_free(a: Seq<char>)
    requires
        tab_free(a),
    ensures
        spec_split_tabs(a) == seq![a],
{
    lemma_find_char_range(a, '\t', 0);
}

proof fn lemma_split_join(a: Seq<char>, rest: Seq<char>)
    requires
        tab_free(a),
    ensures
        spec_split_tabs(a + seq!['\t'] + rest) == seq![a] + spec_split_tabs(rest),
{
    let s = a + seq!['\t'] + rest;
    lemma_find_char_range(s, '\t', 0);
    let i = find_char_from(s, '\t', 0);
    assert(s[a.len() as int] == '\t');
    if i != -1 && i < a.len() {
        assert(s[i] == a[i]);
    }
    assert(i == a.len());
    assert(s.take(i) =~= a);
    assert(s.skip(i + 1) =~= rest);
}

proof fn lemma_kind_name_roundtrip(k: LogKind)
    ensures
        spec_parse_kind(kind_name(k)) == Some(k),
        tab_free(kind_name(k)),
{
    reveal_strlit("sms");
    reveal_strlit("call");
    reveal_strlit("system");
    reveal_strlit("network");
    reveal_strlit("user");
    reveal_strlit("ota");
    assert("sms"@.len() != "call"@.len());
    assert("sms"@.len() != "system"@.len());
    assert("call"@.len() != "system"@.len());
    assert("sms"@.len() != "network"@.len());
    assert("call"@.len() != "network"@.len());
    assert("system"@.len() != "network"@.len());
    assert("sms"@.len() != "user"@.len());
    assert("call"@[0] != "user"@[0]);
    assert("system"@.len() != "user"@.len());
    assert("network"@.len() != "user"@.len());
    assert("sms"@[0] != "ota"@[0]);
    assert("call"@.len() != "ota"@.len());
    assert("system"@.len() != "ota"@.len());
    assert("network"@.len() != "ota"@.len());
    assert("user"@.len() != "ota"@.len());
}

/// An entry whose fields fit in one record is decoded from its payload unchanged: what a
/// read of the log gives back is what was appended.
pub proof fn lemma_payload_roundtrip(e: SpecLogEntry)
    requires
        payload_base_len(e) + escaped_len(e.sender) + escaped_len(e.body_preview)
            <= FLASH_LOG_PAYLOAD_SIZE,
    ensures
        spec_decode_payload(vstd::utf8::encode_utf8(payload_text(e))) == Some(e),
{
    let p = payload_text(e);
    vstd::utf8::encode_utf8_valid_utf8(p);
    vstd::utf8::encode_utf8_decode_utf8(p);
    lemma_escaped_len_bound(e.sender);
    lemma_escaped_len_bound(e.body_preview);
    lemma_truncated_escape_full(e.sender, sender_budget(e));
    lemma_truncated_escape_full(e.body_preview, body_budget(e));
    lemma_kind_name_roundtrip(e.kind);
    lemma_escape_has_no_tab(e.timestamp);
    lemma_escape_has_no_tab(e.sender);
    lemma_escape_has_no_tab(e.body_preview);
    lemma_unescape_escape(e.timestamp);
    lemma_unescape_escape(e.sender);
    lemma_unescape_escape(e.body_preview);
    let one = seq!['1'];
    let kn = kind_name(e.kind);
    let fw = if e.forwarded { seq!['1'] } else { seq!['0'] };
    let ts = spec_escape(e.timestamp);
    let sd = spec_escape(e.sender);
    let bd = spec_escape(e.body_preview);
    let tab = seq!['\t'];
    assert(p =~= one + tab + (kn + tab + (fw + tab + (ts + tab + (sd + tab + bd)))));
    assert(tab_free(one));
    assert(tab_free(fw));
    lemma_split_tab_free(bd);
    lemma_split_join(sd, bd);
    lemma_split_join(ts, sd + tab + bd);
    lemma_split_join(fw, ts + tab + (sd + tab + bd));
    lemma_split_join(kn, fw + tab + (ts + tab + (sd + tab + bd)));
    lemma_split_join(one, kn + tab + (fw + tab + (ts + tab + (sd + tab + bd))));
    let f = spec_split_tabs(p);
    assert(f =~= seq![one, kn, fw, ts, sd, bd]);
}


// ---------------------------------------------------------------------------
// Records
// ---------------------------------------------------------------------------

/// FNV-1a over `b` (32-bit, offset basis 0x811C9DC5, prime 0x01000193).
pub open spec fn fnv1a(b: Seq<u8>) -> u32
    decreases b.len(),
{
    if b.len() == 0 {
        0x811C_9DC5u32
    } else {
        (((fnv1a(b.drop_last()) ^ (b.last() as u32)) as nat * 0x0100_0193nat) % 0x1_0000_0000nat) as u32
    }
}

fn checksum(bytes: &[u8]) -> (h: u32)
    ensures
        h == fnv1a(bytes@),
{
    let mut hash: u32 = 0x811C_9DC5;
    let mut i: usize = 0;
    while i < bytes.len()
        invariant
            i <= bytes@.len(),
            hash == fnv1a(bytes@.take(i as int)),
        decreases bytes@.len() - i,
    {
        hash = hash ^ (bytes[i] as u32);
        hash = hash.wrapping_mul(0x0100_0193);
        i = i + 1;
        assert(bytes@.take(i as int).drop_last() =~= bytes@.take(i - 1));
    }
    assert(bytes@.take(bytes@.len() as int) =~= bytes@);
    hash
}

/// Little-endian 16-bit value at `o`.
pub open spec fn le16_at(r: Seq<u8>, o: int) -> int {
    r[o] + r[o + 1] * 256
}

/// Little-endian 32-bit value at `o`.
pub open spec fn le32_at(r: Seq<u8>, o: int) -> int {
    r[o] + r[o + 1] * 256 + r[o + 2] * 65536 + r[o + 3] * 16777216
}

/// Little-endian bytes of a 32-bit value.
pub open spec fn le32_bytes(x: u32) -> Seq<u8> {
    seq![(x % 256) as u8, ((x / 256) % 256) as u8, ((x / 65536) % 256) as u8, (x / 16777216) as u8]
}

/// Little-endian bytes of a 16-bit value.
pub open spec fn le16_bytes(x: u16) -> Seq<u8> {
    seq![(x % 256) as u8, (x / 256) as u8]
}

/// Every byte is erased (0xFF).
pub open spec fn all_erased(r: Seq<u8>) -> bool {
    forall|i: int| 0 <= i < r.len() ==> r[i] == 0xFF
}

/// Sequence number and payload length of a record, when it holds a valid one: not
/// erased, right magic, non-zero sequence, length within the payload area, checksum
/// matching.
pub open spec fn spec_record_meta(r: Seq<u8>) -> Option<(u32, int)> {
    if all_erased(r) || le32_at(r, 0) != FLASH_LOG_MAGIC {
        None
    } else {
        let seq = le32_at(r, 4);
        let len = le16_at(r, 8);
        if seq == 0 || len > FLASH_LOG_PAYLOAD_SIZE {
            None
        } else if fnv1a(r.subrange(16, 16 + len)) != le32_at(r, 10) {
            None
        } else {
            Some((seq as u32, len))
        }
    }
}

/// The 256 record bytes of an entry: magic, sequence number, payload length, checksum,
/// two erased bytes, the payload, and erased bytes up to the record size.
pub open spec fn spec_record(seq: u32, payload: Seq<u8>) -> Seq<u8> {
    le32_bytes(FLASH_LOG_MAGIC) + le32_bytes(seq) + le16_bytes(payload.len() as u16) + le32_bytes(
        fnv1a(payload),
    ) + seq![0xFFu8, 0xFFu8] + payload + Seq::new((FLASH_LOG_PAYLOAD_SIZE - payload.len()) as nat, |i: int| 0xFFu8)
}

fn push_le32(out: &mut Vec<u8>, x: u32)
    ensures
        final(out)@ == old(out)@ + le32_bytes(x),
{
    out.push((x % 256) as u8);
    out.push(((x / 256) % 256) as u8);
    out.push(((x / 65536) % 256) as u8);
    out.push((x / 16777216) as u8);
    assert(final(out)@ =~= old(out)@ + le32_bytes(x));
}

fn build_record(seq: u32, payload: &[u8]) -> (r: Vec<u8>)
    requires
        payload@.len() <= FLASH_LOG_PAYLOAD_SIZE,
    ensures
        r@ == spec_record(seq, payload@),
        r@.len() == FLASH_LOG_RECORD_SIZE,
{
    let mut record: Vec<u8> = Vec::new();
    push_le32(&mut record, FLASH_LOG_MAGIC);
    push_le32(&mut record, seq);
    let len16 = payload.len() as u16;
    record.push((len16 % 256) as u8);
    record.push((len16 / 256) as u8);
    push_le32(&mut record, checksum(payload));
    record.push(0xFF);
    record.push(0xFF);
    let mut i: usize = 0;
    let ghost head = record@;
    while i < payload.len()
        invariant
            i <= payload@.len(),
            record@ == head + payload@.take(i as int),
        decreases payload@.len() - i,
    {
        record.push(payload[i]);
        i = i + 1;
        assert(record@ =~= head + payload@.take(i as int));
    }
    assert(payload@.take(payload@.len() as int) =~= payload@);
    let ghost body = record@;
    let pad = FLASH_LOG_PAYLOAD_SIZE - payload.len();
    let mut k: usize = 0;
    while k < pad
        invariant
            k <= pad,
            record@ == body + Seq::new(k as nat, |j: int| 0xFFu8),
        decreases pad - k,
    {
        record.push(0xFF);
        k = k + 1;
        assert(record@ =~= body + Seq::new(k as nat, |j: int| 0xFFu8));
    }
    assert(record@ =~= spec_record(seq, payload@));
    record
}

proof fn lemma_le32_roundtrip(x: u32)
    ensures
        le32_at(le32_bytes(x), 0) == x,
{
    let b = le32_bytes(x);
    assert(b[0] + b[1] * 256 + b[2] * 65536 + b[3] * 16777216 == x) by (nonlinear_arith)
        requires
            b[0] == x % 256,
            b[1] == (x / 256) % 256,
            b[2] == (x / 65536) % 256,
            b[3] == x / 16777216,
            x < 0x1_0000_0000,
    ;
}

proof fn lemma_le_window(r: Seq<u8>, o: int, w: Seq<u8>)
    requires
        0 <= o,
        o + 4 <= r.len(),
        w.len() == 4,
        r.subrange(o, o + 4) == w,
    ensures
        le32_at(r, o) == le32_at(w, 0),
{
    assert(r[o] == w[0]);
    assert(r[o + 1] == w[1]);
    assert(r[o + 2] == w[2]);
    assert(r[o + 3] == w[3]);
}

/// A record written with a non-zero sequence number and a payload that fits reads back as
/// that sequence number and payload.
pub proof fn lemma_record_roundtrip(seq: u32, payload: Seq<u8>)
    requires
        seq != 0,
        payload.len() <= FLASH_LOG_PAYLOAD_SIZE,
    ensures
        spec_record_meta(spec_record(seq, payload)) == Some((seq, payload.len() as int)),
        spec_record(seq, payload).subrange(16, 16 + payload.len() as int) == payload,
{
    let r = spec_record(seq, payload);
    let ck = fnv1a(payload);
    let h1 = le32_bytes(FLASH_LOG_MAGIC);
    let h2 = le32_bytes(seq);
    let h3 = le16_bytes(payload.len() as u16);
    let h4 = le32_bytes(ck);
    assert(r.subrange(0, 4) =~= h1);
    assert(r.subrange(4, 8) =~= h2);
    assert(r.subrange(10, 14) =~= h4);
    assert(r[8] == h3[0] && r[9] == h3[1]);
    lemma_le32_roundtrip(FLASH_LOG_MAGIC);
    lemma_le32_roundtrip(seq);
    lemma_le32_roundtrip(ck);
    lemma_le_window(r, 0, h1);
    lemma_le_window(r, 4, h2);
    lemma_le_window(r, 10, h4);
    assert(r[0] == 0x47);
    assert(!all_erased(r));
    assert(r.subrange(16, 16 + payload.len() as int) =~= payload);
}

/// The contents after programming `data` at `offset`: flash can only clear bits.
pub open spec fn program_bytes(c: Seq<u8>, offset: int, data: Seq<u8>) -> Seq<u8> {
    Seq::new(c.len(), |i: int| if offset <= i < offset + data.len() { c[i] & data[i - offset] } else { c[i] })
}

/// The contents after erasing `len` bytes at `offset` to 0xFF.
pub open spec fn erase_bytes(c: Seq<u8>, offset: int, len: int) -> Seq<u8> {
    Seq::new(c.len(), |i: int| if offset <= i < offset + len { 0xFFu8 } else { c[i] })
}

/// `a.is_multiple_of(b)`: for `b == 0`, only 0 is a multiple.
pub open spec fn is_multiple(a: int, b: int) -> bool {
    if b == 0 { a == 0 } else { a % b == 0 }
}

/// Programming an erased window with `data` leaves exactly `data` there.
pub proof fn lemma_program_erased(c: Seq<u8>, offset: int, data: Seq<u8>)
    requires
        0 <= offset,
        offset + data.len() <= c.len(),
        all_erased(c.subrange(offset, offset + data.len())),
    ensures
        program_bytes(c, offset, data).subrange(offset, offset + data.len()) == data,
{
    let p = program_bytes(c, offset, data);
    assert forall|i: int| 0 <= i < data.len() implies p.subrange(offset, offset + data.len())[i] == data[i] by {
        let x = data[i];
        assert(c.subrange(offset, offset + data.len())[i] == 0xFF);
        assert(0xFFu8 & x == x) by (bit_vector);
    }
    assert(p.subrange(offset, offset + data.len()) =~= data);
}


// ---------------------------------------------------------------------------
// Storage
// ---------------------------------------------------------------------------

/// Flash-like storage: reads return what is stored, writes can only clear bits, erases
/// set whole erase units back to 0xFF.
/// Whether `x` is a whole number of erase units of `unit` bytes (only 0 when the unit
/// is 0).
pub open spec fn erase_aligned(x: int, unit: int) -> bool {
    if unit == 0 {
        x == 0
    } else {
        x % unit == 0
    }
}

pub trait LogFlashStorage {
    /// The bytes held: the model the contracts speak of, kept, with `erase_unit`, by
    /// every storage for which `obeys_model` holds.
    closed spec fn contents(&self) -> Seq<u8> {
        Seq::empty()
    }

    /// The erase unit in bytes.
    closed spec fn erase_unit(&self) -> int {
        0
    }

    /// Whether the storage keeps the model `contents` and `erase_unit` (true of storage
    /// in RAM). A storage that leaves it at its default, false, is promised nothing about
    /// its contents.
    closed spec fn obeys_model(&self) -> bool {
        false
    }

    /// Whether every read, write and erase inside the storage, on erase-unit bounds for
    /// an erase, succeeds (true of storage in RAM). A storage that leaves it at its
    /// default, false, is promised nothing about the outcome of its operations.
    closed spec fn never_fails(&self) -> bool {
        false
    }

    /// Size in bytes.
    fn len(&self) -> (r: usize)
        ensures
            self.obeys_model() ==> r == self.contents().len(),
    ;

    /// Whether the storage holds no bytes.
    fn is_empty(&self) -> (r: bool)
        ensures
            self.obeys_model() ==> r == (self.contents().len() == 0),
    {
        self.len() == 0
    }

    /// The erase unit in bytes.
    fn erase_size(&self) -> (r: usize)
        ensures
            self.obeys_model() ==> r == self.erase_unit(),
    ;

    /// Reads `buf.len()` bytes at `offset`.
    fn read(&mut self, offset: usize, buf: &mut [u8]) -> (r: Result<(), FlashLogError>)
        ensures
            old(self).obeys_model() ==> final(self).contents() == old(self).contents(),
            old(self).obeys_model() ==> final(self).erase_unit() == old(self).erase_unit(),
            final(self).never_fails() == old(self).never_fails(),
            final(self).obeys_model() == old(self).obeys_model(),
            final(buf)@.len() == old(buf)@.len(),
            old(self).obeys_model() && old(self).never_fails() && offset + old(buf)@.len() <= old(self).contents().len()
                ==> r is Ok,
            old(self).obeys_model() && r is Ok ==> offset + old(buf)@.len() <= old(self).contents().len() && final(buf)@
                == old(self).contents().subrange(offset as int, offset + old(buf)@.len()),
    ;

    /// Programs `data` at `offset`.
    fn write(&mut self, offset: usize, data: &[u8]) -> (r: Result<(), FlashLogError>)
        ensures
            old(self).obeys_model() ==> final(self).contents().len() == old(self).contents().len(),
            old(self).obeys_model() ==> final(self).erase_unit() == old(self).erase_unit(),
            final(self).never_fails() == old(self).never_fails(),
            final(self).obeys_model() == old(self).obeys_model(),
            old(self).obeys_model() && old(self).never_fails() && offset + data@.len() <= old(self).contents().len() ==> r is Ok,
            old(self).obeys_model() && r is Ok ==> offset + data@.len() <= old(self).contents().len() && final(self).contents()
                == program_bytes(old(self).contents(), offset as int, data@),
    ;

    /// Erases `len` bytes at `offset`.
    fn erase(&mut self, offset: usize, len: usize) -> (r: Result<(), FlashLogError>)
        ensures
            old(self).obeys_model() ==> final(self).contents().len() == old(self).contents().len(),
            old(self).obeys_model() ==> final(self).erase_unit() == old(self).erase_unit(),
            final(self).never_fails() == old(self).never_fails(),
            final(self).obeys_model() == old(self).obeys_model(),
            old(self).obeys_model() && old(self).never_fails() && erase_aligned(offset as int, old(self).erase_unit())
                && erase_aligned(len as int, old(self).erase_unit()) && offset + len <= old(
                self,
            ).contents().len() ==> r is Ok,
            old(self).obeys_model() && r is Ok ==> offset + len <= old(self).contents().len() && final(self).contents()
                == erase_bytes(old(self).contents(), offset as int, len as int),
    ;
}

/// Volatile storage in RAM with flash semantics.
#[derive(Debug, Clone)]
pub struct MemFlashLogStorage {
    data: Vec<u8>,
    erase_size: usize,
}

impl MemFlashLogStorage {
    /// Erased storage of `size` bytes with the given erase unit.
    pub fn new(size: usize, erase_size: usize) -> (r: Self)
        ensures
            r.contents() == Seq::new(size as nat, |i: int| 0xFFu8),
            r.erase_unit() == erase_size,
            r.never_fails(),
            r.obeys_model(),
    {
        let mut data: Vec<u8> = Vec::new();
        let mut i: usize = 0;
        while i < size
            invariant
                i <= size,
                data@ == Seq::new(i as nat, |k: int| 0xFFu8),
            decreases size - i,
        {
            data.push(0xFF);
            i = i + 1;
            assert(data@ =~= Seq::new(i as nat, |k: int| 0xFFu8));
        }
        MemFlashLogStorage { data, erase_size }
    }

    /// Flips bits of one byte (bitwise XOR with 0x55), to simulate corruption.
    pub fn corrupt_byte(&mut self, offset: usize)
        requires
            offset < old(self).contents().len(),
        ensures
            final(self).contents() == old(self).contents().update(
                offset as int,
                old(self).contents()[offset as int] ^ 0x55,
            ),
            final(self).erase_unit() == old(self).erase_unit(),
            final(self).never_fails(),
    {
        let b = self.data[offset] ^ 0x55;
        self.data.set(offset, b);
    }
}

impl LogFlashStorage for MemFlashLogStorage {
    closed spec fn contents(&self) -> Seq<u8> {
        self.data@
    }

    closed spec fn erase_unit(&self) -> int {
        self.erase_size as int
    }

    closed spec fn never_fails(&self) -> bool {
        true
    }

    closed spec fn obeys_model(&self) -> bool {
        true
    }

    fn len(&self) -> (r: usize) {
        self.data.len()
    }

    fn erase_size(&self) -> (r: usize) {
        self.erase_size
    }

    fn read(&mut self, offset: usize, buf: &mut [u8]) -> (r: Result<(), FlashLogError>)
        ensures
            r is Ok <==> offset + old(buf)@.len() <= old(self).contents().len(),
            r is Err ==> r == Err::<(), FlashLogError>(FlashLogError::OutOfBounds) && final(buf)@
                == old(buf)@,
    {
        let n = buf.len();
        if offset > self.data.len() || n > self.data.len() - offset {
            return Err(FlashLogError::OutOfBounds);
        }
        let mut i: usize = 0;
        while i < n
            invariant
                offset + n <= self.data.len(),
                self.erase_size == old(self).erase_size,
                n == buf@.len(),
                i <= n,
                forall|k: int| 0 <= k < i ==> buf@[k] == self.data@[offset + k],
            decreases n - i,
        {
            buf[i] = self.data[offset + i];
            i = i + 1;
        }
        assert(buf@ =~= self.data@.subrange(offset as int, offset + n));
        Ok(())
    }

    fn write(&mut self, offset: usize, data: &[u8]) -> (r: Result<(), FlashLogError>)
        ensures
            r is Ok <==> offset + data@.len() <= old(self).contents().len(),
            r is Err ==> r == Err::<(), FlashLogError>(FlashLogError::OutOfBounds)
                && final(self).contents() == old(self).contents(),
    {
        let n = data.len();
        if offset > self.data.len() || n > self.data.len() - offset {
            return Err(FlashLogError::OutOfBounds);
        }
        let ghost before = self.data@;
        let mut i: usize = 0;
        while i < n
            invariant
                offset + n <= self.data.len(),
                self.erase_size == old(self).erase_size,
                n == data@.len(),
                before.len() == self.data@.len(),
                i <= n,
                forall|k: int|
                    0 <= k < self.data@.len() ==> self.data@[k] == (if offset <= k < offset + i {
                        before[k] & data@[k - offset]
                    } else {
                        before[k]
                    }),
            decreases n - i,
        {
            let v = self.data[offset + i] & data[i];
            self.data.set(offset + i, v);
            i = i + 1;
        }
        assert(self.data@ =~= program_bytes(before, offset as int, data@));
        Ok(())
    }

    fn erase(&mut self, offset: usize, len: usize) -> (r: Result<(), FlashLogError>)
        ensures
            !(erase_aligned(offset as int, old(self).erase_unit()) && erase_aligned(
                len as int,
                old(self).erase_unit(),
            )) ==> r == Err::<(), FlashLogError>(
                FlashLogError::InvalidGeometry {
                    size: old(self).contents().len() as usize,
                    erase_size: old(self).erase_unit() as usize,
                },
            ),
            erase_aligned(offset as int, old(self).erase_unit()) && erase_aligned(
                len as int,
                old(self).erase_unit(),
            ) ==> (r is Ok <==> offset + len <= old(self).contents().len()),
            r is Err ==> final(self).contents() == old(self).contents()
                && (r == Err::<(), FlashLogError>(FlashLogError::OutOfBounds) || !(erase_aligned(
                offset as int,
                old(self).erase_unit(),
            ) && erase_aligned(len as int, old(self).erase_unit()))),
    {
        let es = self.erase_size;
        let offset_ok = if es == 0 { offset == 0 } else { offset % es == 0 };
        let len_ok = if es == 0 { len == 0 } else { len % es == 0 };
        if !offset_ok || !len_ok {
            return Err(FlashLogError::InvalidGeometry { size: self.data.len(), erase_size: es });
        }
        if offset > self.data.len() || len > self.data.len() - offset {
            return Err(FlashLogError::OutOfBounds);
        }
        let ghost before = self.data@;
        let mut i: usize = 0;
        while i < len
            invariant
                offset + len <= self.data.len(),
                self.erase_size == old(self).erase_size,
                before.len() == self.data@.len(),
                i <= len,
                forall|k: int|
                    0 <= k < self.data@.len() ==> self.data@[k] == (if offset <= k < offset + i {
                        0xFFu8
                    } else {
                        before[k]
                    }),
            decreases len - i,
        {
            self.data.set(offset + i, 0xFF);
            i = i + 1;
        }
        assert(self.data@ =~= erase_bytes(before, offset as int, len as int));
        Ok(())
    }
}

impl<T: LogFlashStorage + ?Sized> LogFlashStorage for Box<T> {
    open spec fn contents(&self) -> Seq<u8> {
        (**self).contents()
    }

    open spec fn erase_unit(&self) -> int {
        (**self).erase_unit()
    }

    open spec fn never_fails(&self) -> bool {
        (**self).never_fails()
    }

    open spec fn obeys_model(&self) -> bool {
        (**self).obeys_model()
    }

    fn len(&self) -> (r: usize) {
        (**self).len()
    }

    fn erase_size(&self) -> (r: usize) {
        (**self).erase_size()
    }

    fn read(&mut self, offset: usize, buf: &mut [u8]) -> (r: Result<(), FlashLogError>) {
        (**self).read(offset, buf)
    }

    fn write(&mut self, offset: usize, data: &[u8]) -> (r: Result<(), FlashLogError>) {
        (**self).write(offset, data)
    }

    fn erase(&mut self, offset: usize, len: usize) -> (r: Result<(), FlashLogError>) {
        (**self).erase(offset, len)
    }
}


// ---------------------------------------------------------------------------
// Reading records out of storage contents
// ---------------------------------------------------------------------------

/// The record bytes of slot `slot`.
pub open spec fn record_at(c: Seq<u8>, slot: int) -> Seq<u8> {
    c.subrange(slot * 256, slot * 256 + 256)
}

/// The sequence number of the valid record in slot `slot`.
pub open spec fn header_at(c: Seq<u8>, slot: int) -> Option<u32> {
    match spec_record_meta(record_at(c, slot)) {
        Some((s, _)) => Some(s),
        None => None,
    }
}

/// The entry stored in slot `slot`, when the record is valid and its payload decodes.
pub open spec fn entry_at(c: Seq<u8>, slot: int) -> Option<SpecLogEntry> {
    match spec_record_meta(record_at(c, slot)) {
        Some((_, len)) => spec_decode_payload(record_at(c, slot).subrange(16, 16 + len)),
        None => None,
    }
}

/// The kind named by a payload: UTF-8 text whose first field is `1` and whose second
/// field is a known kind.
pub open spec fn spec_payload_kind(b: Seq<u8>) -> Option<LogKind> {
    if !vstd::utf8::valid_utf8(b) {
        None
    } else {
        let f = spec_split_tabs(vstd::utf8::decode_utf8(b));
        if f[0] != seq!['1'] || f.len() < 2 {
            None
        } else {
            spec_parse_kind(f[1])
        }
    }
}

/// The kind of the valid record in slot `slot`.
pub open spec fn kind_at(c: Seq<u8>, slot: int) -> Option<LogKind> {
    match spec_record_meta(record_at(c, slot)) {
        Some((_, len)) => spec_payload_kind(record_at(c, slot).subrange(16, 16 + len)),
        None => None,
    }
}

/// (sequence, slot) of the valid records among the first `n` slots, in slot order.
pub open spec fn headers_upto(c: Seq<u8>, n: int) -> Seq<(u32, int)>
    decreases n,
{
    if n <= 0 {
        Seq::empty()
    } else {
        let p = headers_upto(c, n - 1);
        match header_at(c, n - 1) {
            Some(s) => p.push((s, n - 1)),
            None => p,
        }
    }
}

/// The header with the greatest sequence number; the later one on a tie.
pub open spec fn best_of(hs: Seq<(u32, int)>) -> Option<(u32, int)>
    decreases hs.len(),
{
    if hs.len() == 0 {
        None
    } else {
        let p = best_of(hs.drop_last());
        let h = hs.last();
        match p {
            None => Some(h),
            Some(b) => if h.0 >= b.0 {
                Some(h)
            } else {
                p
            },
        }
    }
}

/// Where the next record goes after mounting: after the newest record, or at the start.
pub open spec fn spec_next_position(c: Seq<u8>, slots: int) -> (u32, int) {
    match best_of(headers_upto(c, slots)) {
        None => (1, 0),
        Some((s, k)) => (if s == u32::MAX { 1 } else { (s + 1) as u32 }, (k + 1) % slots),
    }
}

/// Position of the first header whose sequence number is not below `s`.
pub open spec fn lower_bound(hs: Seq<(u32, int)>, s: u32) -> int
    decreases hs.len(),
{
    if hs.len() == 0 || hs[0].0 >= s {
        0
    } else {
        1 + lower_bound(hs.skip(1), s)
    }
}

/// Keeps at most `limit` headers, ordered by sequence number: a new header goes in at its
/// place, pushing out the oldest when full; an older one than all kept is dropped.
pub open spec fn insert_newest(hs: Seq<(u32, int)>, h: (u32, int), limit: int) -> Seq<(u32, int)> {
    let at = lower_bound(hs, h.0);
    if hs.len() < limit {
        hs.insert(at, h)
    } else if at > 0 {
        hs.skip(1).insert(at - 1, h)
    } else {
        hs
    }
}

/// The newest `limit` headers among the first `n` slots.
pub open spec fn newest_upto(c: Seq<u8>, n: int, limit: int) -> Seq<(u32, int)>
    decreases n,
{
    if n <= 0 {
        Seq::empty()
    } else {
        let p = newest_upto(c, n - 1, limit);
        match header_at(c, n - 1) {
            Some(s) => insert_newest(p, (s, n - 1), limit),
            None => p,
        }
    }
}

/// The newest `limit` headers, oldest first.
pub open spec fn newest_headers(c: Seq<u8>, slots: int, limit: int) -> Seq<(u32, int)> {
    if limit == 0 {
        Seq::empty()
    } else {
        newest_upto(c, slots, limit)
    }
}

/// The entries of the given slots that decode, in order.
pub open spec fn entries_of(c: Seq<u8>, hs: Seq<(u32, int)>) -> Seq<SpecLogEntry>
    decreases hs.len(),
{
    if hs.len() == 0 {
        Seq::empty()
    } else {
        let p = entries_of(c, hs.drop_last());
        match entry_at(c, hs.last().1) {
            Some(e) => p.push(e),
            None => p,
        }
    }
}

/// The headers of a page: newest first, `offset` newest skipped, at most `limit`.
pub open spec fn page_headers(hs: Seq<(u32, int)>, offset: int, limit: int) -> Seq<(u32, int)> {
    if offset >= hs.len() {
        Seq::empty()
    } else {
        let r = hs.reverse().skip(offset);
        if limit >= r.len() { r } else { r.take(limit) }
    }
}

/// (sequence, entry) of the decodable records among the first `n` slots, in slot order.
pub open spec fn records_upto(c: Seq<u8>, n: int) -> Seq<(u32, SpecLogEntry)>
    decreases n,
{
    if n <= 0 {
        Seq::empty()
    } else {
        let p = records_upto(c, n - 1);
        match (header_at(c, n - 1), entry_at(c, n - 1)) {
            (Some(s), Some(e)) => p.push((s, e)),
            _ => p,
        }
    }
}

/// Position after the last record whose sequence number is not above `s`.
pub open spec fn upper_bound_rec(rs: Seq<(u32, SpecLogEntry)>, s: u32) -> int
    decreases rs.len(),
{
    if rs.len() == 0 || rs[0].0 > s {
        0
    } else {
        1 + upper_bound_rec(rs.skip(1), s)
    }
}

/// Records ordered by sequence number; equal numbers keep their slot order.
pub open spec fn sort_by_seq(rs: Seq<(u32, SpecLogEntry)>) -> Seq<(u32, SpecLogEntry)>
    decreases rs.len(),
{
    if rs.len() == 0 {
        Seq::empty()
    } else {
        let p = sort_by_seq(rs.drop_last());
        p.insert(upper_bound_rec(p, rs.last().0), rs.last())
    }
}

/// The newest valid record of a kind among the first `n` slots; the earliest slot on a tie.
pub open spec fn latest_kind_upto(c: Seq<u8>, n: int, kind: LogKind) -> Option<(u32, int)>
    decreases n,
{
    if n <= 0 {
        None
    } else {
        let p = latest_kind_upto(c, n - 1, kind);
        match (header_at(c, n - 1), kind_at(c, n - 1)) {
            (Some(s), Some(k)) => {
                let newer = match p {
                    None => true,
                    Some(cur) => s > cur.0,
                };
                if k == kind && newer {
                    Some((s, n - 1))
                } else {
                    p
                }
            },
            _ => p,
        }
    }
}

proof fn lemma_lower_bound_range(hs: Seq<(u32, int)>, s: u32)
    ensures
        0 <= lower_bound(hs, s) <= hs.len(),
    decreases hs.len(),
{
    if hs.len() > 0 && hs[0].0 < s {
        lemma_lower_bound_range(hs.skip(1), s);
    }
}

proof fn lemma_upper_bound_range(rs: Seq<(u32, SpecLogEntry)>, s: u32)
    ensures
        0 <= upper_bound_rec(rs, s) <= rs.len(),
    decreases rs.len(),
{
    if rs.len() > 0 && rs[0].0 <= s {
        lemma_upper_bound_range(rs.skip(1), s);
    }
}

proof fn lemma_newest_len(c: Seq<u8>, n: int, limit: int)
    requires
        limit >= 1,
    ensures
        newest_upto(c, n, limit).len() <= limit,
    decreases n,
{
    if n > 0 {
        lemma_newest_len(c, n - 1, limit);
        let p = newest_upto(c, n - 1, limit);
        match header_at(c, n - 1) {
            Some(s) => lemma_lower_bound_range(p, s),
            None => {},
        }
    }
}


// ---------------------------------------------------------------------------
// Record access through a storage
// ---------------------------------------------------------------------------

/// The storage holds `slots` whole records and fits in memory offsets.
pub open spec fn storage_shape(c: Seq<u8>, slots: int) -> bool {
    slots * 256 == c.len() && c.len() <= usize::MAX
}

fn zeroed_record() -> (r: Vec<u8>)
    ensures
        r@.len() == FLASH_LOG_RECORD_SIZE,
{
    let mut r: Vec<u8> = Vec::new();
    let mut i: usize = 0;
    while i < FLASH_LOG_RECORD_SIZE
        invariant
            i <= FLASH_LOG_RECORD_SIZE,
            r@.len() == i,
        decreases FLASH_LOG_RECORD_SIZE - i,
    {
        r.push(0);
        i = i + 1;
    }
    r
}

fn le32_exec(r: &[u8], o: usize) -> (x: u32)
    requires
        o + 4 <= r@.len(),
    ensures
        x == le32_at(r@, o as int),
{
    r[o] as u32 + (r[o + 1] as u32) * 256 + (r[o + 2] as u32) * 65536 + (r[o + 3] as u32) * 16777216
}

fn record_meta(record: &[u8]) -> (m: Option<(u32, usize)>)
    requires
        record@.len() == FLASH_LOG_RECORD_SIZE,
    ensures
        match spec_record_meta(record@) {
            Some((s, l)) => m == Some((s, l as usize)),
            None => m is None,
        },
{
    let mut all_ff = true;
    let mut i: usize = 0;
    while i < record.len()
        invariant
            i <= record@.len(),
            all_ff == (forall|k: int| 0 <= k < i ==> record@[k] == 0xFF),
        decreases record@.len() - i,
    {
        if record[i] != 0xFF {
            all_ff = false;
        }
        i = i + 1;
    }
    if all_ff {
        return None;
    }
    let magic = le32_exec(record, 0);
    if magic != FLASH_LOG_MAGIC {
        return None;
    }
    let seq = le32_exec(record, 4);
    let len = (record[8] as usize) + (record[9] as usize) * 256;
    let expected = le32_exec(record, 10);
    if seq == 0 || len > FLASH_LOG_PAYLOAD_SIZE {
        return None;
    }
    let payload = vstd::slice::slice_subrange(record, FLASH_LOG_HEADER_SIZE, FLASH_LOG_HEADER_SIZE + len);
    if checksum(payload) != expected {
        return None;
    }
    Some((seq, len))
}

fn read_record_meta<S: LogFlashStorage>(storage: &mut S, slot: usize, record: &mut Vec<u8>) -> (r: Result<Option<(u32, usize)>, FlashLogError>)
    requires
        old(record)@.len() == FLASH_LOG_RECORD_SIZE,
        (slot + 1) * 256 <= usize::MAX,
        old(storage).obeys_model() ==> (slot + 1) * 256 <= old(storage).contents().len(),
    ensures
        old(storage).obeys_model() ==> final(storage).contents() == old(storage).contents(),
        old(storage).obeys_model() ==> final(storage).erase_unit() == old(storage).erase_unit(),
        final(storage).never_fails() == old(storage).never_fails(),
        final(storage).obeys_model() == old(storage).obeys_model(),
        old(storage).obeys_model() && old(storage).never_fails() ==> r is Ok,
        final(record)@.len() == FLASH_LOG_RECORD_SIZE,
        old(storage).obeys_model() && r is Ok ==> final(record)@ == record_at(old(storage).contents(), slot as int),
        old(storage).obeys_model() && r is Ok ==> match spec_record_meta(record_at(old(storage).contents(), slot as int)) {
            Some((s, l)) => r == Ok::<Option<(u32, usize)>, FlashLogError>(Some((s, l as usize))),
            None => r == Ok::<Option<(u32, usize)>, FlashLogError>(None),
        },
{
    match storage.read(slot * FLASH_LOG_RECORD_SIZE, record.as_mut_slice()) {
        Ok(()) => {},
        Err(e) => return Err(e),
    }
    Ok(record_meta(record.as_slice()))
}

fn read_record_header<S: LogFlashStorage>(storage: &mut S, slot: usize) -> (r: Result<Option<u32>, FlashLogError>)
    requires
        (slot + 1) * 256 <= usize::MAX,
        old(storage).obeys_model() ==> (slot + 1) * 256 <= old(storage).contents().len(),
    ensures
        old(storage).obeys_model() ==> final(storage).contents() == old(storage).contents(),
        old(storage).obeys_model() ==> final(storage).erase_unit() == old(storage).erase_unit(),
        final(storage).never_fails() == old(storage).never_fails(),
        final(storage).obeys_model() == old(storage).obeys_model(),
        old(storage).obeys_model() && old(storage).never_fails() ==> r is Ok,
        old(storage).obeys_model() && r is Ok ==> r == Ok::<Option<u32>, FlashLogError>(header_at(old(storage).contents(), slot as int)),
{
    let mut record = zeroed_record();
    match read_record_meta(storage, slot, &mut record) {
        Ok(Some((seq, _len))) => Ok(Some(seq)),
        Ok(None) => Ok(None),
        Err(e) => Err(e),
    }
}

fn record_payload_kind(payload: &[u8]) -> (k: Option<LogKind>)
    ensures
        k == spec_payload_kind(payload@),
{
    let text = match utf8_to_string(payload) {
        Some(t) => t,
        None => return None,
    };
    let cs = str_to_chars(text.as_str());
    let parts = split_tabs(cs.as_slice());
    let ghost f = parts@.map_values(|v: Vec<char>| v@);
    assert(f.len() >= 1) by {
        lemma_split_nonempty(cs@);
    }
    assert(f[0] == parts@[0]@);
    let one = ['1'];
    assert(one@ =~= seq!['1']);
    if !chars_eq(parts[0].as_slice(), one.as_slice()) {
        return None;
    }
    if parts.len() < 2 {
        return None;
    }
    assert(f[1] == parts@[1]@);
    LogKind::parse(parts[1].as_slice())
}

proof fn lemma_split_nonempty(cs: Seq<char>)
    ensures
        spec_split_tabs(cs).len() >= 1,
    decreases cs.len(),
{
    let i = find_char_from(cs, '\t', 0);
    lemma_find_char_range(cs, '\t', 0);
    if !(i < 0 || i >= cs.len()) {
        lemma_split_nonempty(cs.skip(i + 1));
    }
}

fn read_record_kind<S: LogFlashStorage>(storage: &mut S, slot: usize) -> (r: Result<Option<(u32, LogKind)>, FlashLogError>)
    requires
        old(storage).obeys_model(),
        (slot + 1) * 256 <= old(storage).contents().len(),
        old(storage).contents().len() <= usize::MAX,
    ensures
        final(storage).contents() == old(storage).contents(),
        final(storage).erase_unit() == old(storage).erase_unit(),
        final(storage).never_fails() == old(storage).never_fails(),
        final(storage).obeys_model() == old(storage).obeys_model(),
        old(storage).never_fails() ==> r is Ok,
        r is Ok ==> match (header_at(old(storage).contents(), slot as int), kind_at(old(storage).contents(), slot as int)) {
            (Some(s), Some(k)) => r == Ok::<Option<(u32, LogKind)>, FlashLogError>(Some((s, k))),
            _ => r == Ok::<Option<(u32, LogKind)>, FlashLogError>(None),
        },
{
    let mut record = zeroed_record();
    match read_record_meta(storage, slot, &mut record) {
        Ok(Some((seq, len))) => {
            let payload = vstd::slice::slice_subrange(record.as_slice(), FLASH_LOG_HEADER_SIZE, FLASH_LOG_HEADER_SIZE + len);
            match record_payload_kind(payload) {
                Some(kind) => Ok(Some((seq, kind))),
                None => Ok(None),
            }
        },
        Ok(None) => Ok(None),
        Err(e) => Err(e),
    }
}

fn read_record<S: LogFlashStorage>(storage: &mut S, slot: usize) -> (r: Result<Option<(u32, LogEntry)>, FlashLogError>)
    requires
        old(storage).obeys_model(),
        (slot + 1) * 256 <= old(storage).contents().len(),
        old(storage).contents().len() <= usize::MAX,
    ensures
        final(storage).contents() == old(storage).contents(),
        final(storage).erase_unit() == old(storage).erase_unit(),
        final(storage).never_fails() == old(storage).never_fails(),
        final(storage).obeys_model() == old(storage).obeys_model(),
        old(storage).never_fails() ==> r is Ok,
        r is Ok ==> match (header_at(old(storage).contents(), slot as int), entry_at(old(storage).contents(), slot as int)) {
            (Some(s), Some(e)) => r matches Ok(Some((s2, x))) && s2 == s && x@ == e,
            _ => r matches Ok(None),
        },
{
    let mut record = zeroed_record();
    match read_record_meta(storage, slot, &mut record) {
        Ok(Some((seq, len))) => {
            let payload = vstd::slice::slice_subrange(record.as_slice(), FLASH_LOG_HEADER_SIZE, FLASH_LOG_HEADER_SIZE + len);
            match LogEntry::decode_payload(payload) {
                Some(entry) => Ok(Some((seq, entry))),
                None => Ok(None),
            }
        },
        Ok(None) => Ok(None),
        Err(e) => Err(e),
    }
}


/// The model of a list of (sequence, slot) headers.
pub open spec fn headers_view(hs: Seq<(u32, usize)>) -> Seq<(u32, int)> {
    hs.map_values(|h: (u32, usize)| (h.0, h.1 as int))
}

/// The model of a list of (sequence, entry) records.
pub open spec fn records_view(rs: Seq<(u32, LogEntry)>) -> Seq<(u32, SpecLogEntry)> {
    rs.map_values(|r: (u32, LogEntry)| (r.0, r.1@))
}

fn scan_record_headers<S: LogFlashStorage>(storage: &mut S, slots: usize) -> (r: Result<Vec<(u32, usize)>, FlashLogError>)
    requires
        slots * 256 <= usize::MAX,
        old(storage).obeys_model() ==> storage_shape(old(storage).contents(), slots as int),
    ensures
        old(storage).obeys_model() ==> final(storage).contents() == old(storage).contents(),
        old(storage).obeys_model() ==> final(storage).erase_unit() == old(storage).erase_unit(),
        final(storage).never_fails() == old(storage).never_fails(),
        final(storage).obeys_model() == old(storage).obeys_model(),
        old(storage).obeys_model() && old(storage).never_fails() ==> r is Ok,
        old(storage).obeys_model() ==> (r matches Ok(hs) ==> headers_view(hs@) == headers_upto(old(storage).contents(), slots as int)),
        r matches Ok(hs) ==> (forall|i: int| 0 <= i < hs@.len() ==> (#[trigger] hs@[i]).1 < slots),
{
    let ghost c = storage.contents();
    let mut headers: Vec<(u32, usize)> = Vec::new();
    let mut slot: usize = 0;
    while slot < slots
        invariant
            slot <= slots,
            slots * 256 <= usize::MAX,
            old(storage).obeys_model() ==> storage.contents() == c,
            old(storage).obeys_model() ==> storage.erase_unit() == old(storage).erase_unit(),
            storage.never_fails() == old(storage).never_fails(),
            storage.obeys_model() == old(storage).obeys_model(),
            c == old(storage).contents(),
            old(storage).obeys_model() ==> storage_shape(c, slots as int),
            old(storage).obeys_model() ==> headers_view(headers@) == headers_upto(c, slot as int),
            forall|i: int| 0 <= i < headers@.len() ==> (#[trigger] headers@[i]).1 < slot,
        decreases slots - slot,
    {
        match read_record_header(storage, slot) {
            Ok(Some(seq)) => {
                headers.push((seq, slot));
            },
            Ok(None) => {},
            Err(e) => return Err(e),
        }
        slot = slot + 1;
        proof {
            if old(storage).obeys_model() {
                assert(headers_view(headers@) =~= headers_upto(c, slot as int));
            }
        }
    }
    Ok(headers)
}

fn scan_records<S: LogFlashStorage>(storage: &mut S, slots: usize) -> (r: Result<Vec<(u32, LogEntry)>, FlashLogError>)
    requires
        old(storage).obeys_model(),
        storage_shape(old(storage).contents(), slots as int),
    ensures
        final(storage).contents() == old(storage).contents(),
        final(storage).erase_unit() == old(storage).erase_unit(),
        final(storage).never_fails() == old(storage).never_fails(),
        final(storage).obeys_model() == old(storage).obeys_model(),
        old(storage).never_fails() ==> r is Ok,
        r matches Ok(rs) ==> records_view(rs@) == records_upto(old(storage).contents(), slots as int),
{
    let ghost c = storage.contents();
    let mut records: Vec<(u32, LogEntry)> = Vec::new();
    let mut slot: usize = 0;
    while slot < slots
        invariant
            slot <= slots,
            storage.contents() == c,
            storage.erase_unit() == old(storage).erase_unit(),
            storage.never_fails() == old(storage).never_fails(),
            storage.obeys_model(),
            old(storage).obeys_model(),
            c == old(storage).contents(),
            storage_shape(c, slots as int),
            records_view(records@) == records_upto(c, slot as int),
        decreases slots - slot,
    {
        match read_record(storage, slot) {
            Ok(Some(rec)) => {
                records.push(rec);
            },
            Ok(None) => {},
            Err(e) => return Err(e),
        }
        slot = slot + 1;
        assert(records_view(records@) =~= records_upto(c, slot as int));
    }
    Ok(records)
}

fn lower_bound_exec(headers: &Vec<(u32, usize)>, seq: u32) -> (at: usize)
    ensures
        at == lower_bound(headers_view(headers@), seq),
        at <= headers@.len(),
{
    let ghost hv = headers_view(headers@);
    let mut i: usize = 0;
    assert(hv.skip(0) =~= hv);
    while i < headers.len() && headers[i].0 < seq
        invariant
            i <= headers@.len(),
            hv == headers_view(headers@),
            lower_bound(hv, seq) == i + lower_bound(hv.skip(i as int), seq),
        decreases headers@.len() - i,
    {
        assert(hv.skip(i as int).skip(1) =~= hv.skip(i + 1));
        i = i + 1;
    }
    if i < headers.len() {
        assert(hv.skip(i as int)[0] == hv[i as int]);
    } else {
        assert(hv.skip(i as int).len() == 0);
    }
    i
}

fn insert_newest_header(headers: &mut Vec<(u32, usize)>, header: (u32, usize), limit: usize)
    ensures
        headers_view(final(headers)@) == insert_newest(
            headers_view(old(headers)@),
            (header.0, header.1 as int),
            limit as int,
        ),
{
    let insert_at = lower_bound_exec(headers, header.0);
    let ghost hv = headers_view(headers@);
    if headers.len() < limit {
        headers.insert(insert_at, header);
        assert(headers_view(headers@) =~= hv.insert(insert_at as int, (header.0, header.1 as int)));
    } else if insert_at > 0 {
        headers.remove(0);
        headers.insert(insert_at - 1, header);
        assert(headers_view(headers@) =~= hv.skip(1).insert(insert_at - 1, (header.0, header.1 as int)));
    }
}

fn newest_record_headers<S: LogFlashStorage>(storage: &mut S, slots: usize, limit: usize) -> (r: Result<Vec<(u32, usize)>, FlashLogError>)
    requires
        old(storage).obeys_model(),
        storage_shape(old(storage).contents(), slots as int),
    ensures
        final(storage).contents() == old(storage).contents(),
        final(storage).erase_unit() == old(storage).erase_unit(),
        final(storage).never_fails() == old(storage).never_fails(),
        final(storage).obeys_model() == old(storage).obeys_model(),
        old(storage).never_fails() ==> r is Ok,
        r matches Ok(hs) ==> headers_view(hs@) == newest_headers(old(storage).contents(), slots as int, limit as int),
        r matches Ok(hs) ==> (forall|i: int| 0 <= i < hs@.len() ==> (#[trigger] hs@[i]).1 < slots),
{
    if limit == 0 {
        return Ok(Vec::new());
    }
    let ghost c = storage.contents();
    let mut headers: Vec<(u32, usize)> = Vec::new();
    let mut slot: usize = 0;
    while slot < slots
        invariant
            slot <= slots,
            limit >= 1,
            storage.contents() == c,
            storage.erase_unit() == old(storage).erase_unit(),
            storage.never_fails() == old(storage).never_fails(),
            storage.obeys_model(),
            old(storage).obeys_model(),
            c == old(storage).contents(),
            storage_shape(c, slots as int),
            headers_view(headers@) == newest_upto(c, slot as int, limit as int),
            forall|i: int| 0 <= i < headers@.len() ==> (#[trigger] headers@[i]).1 < slot,
        decreases slots - slot,
    {
        match read_record_header(storage, slot) {
            Ok(Some(seq)) => {
                let ghost before = headers@;
                insert_newest_header(&mut headers, (seq, slot), limit);
                assert forall|i: int| 0 <= i < headers@.len() implies (#[trigger] headers@[i]).1 < slot + 1 by {
                    assert(headers_view(headers@)[i] == (headers@[i].0, headers@[i].1 as int));
                    lemma_insert_newest_members(headers_view(before), (seq, slot as int), limit as int, i);
                    if headers_view(headers@)[i] != (seq, slot as int) {
                        let j = choose|j: int| 0 <= j < before.len() && headers_view(before)[j] == headers_view(headers@)[i];
                        assert(headers_view(before)[j] == (before[j].0, before[j].1 as int));
                    }
                }
            },
            Ok(None) => {},
            Err(e) => return Err(e),
        }
        slot = slot + 1;
        assert(headers_view(headers@) =~= newest_upto(c, slot as int, limit as int));
    }
    Ok(headers)
}

/// Every header kept by `insert_newest` is the new one or one of the old ones.
proof fn lemma_insert_newest_members(hs: Seq<(u32, int)>, h: (u32, int), limit: int, i: int)
    requires
        0 <= i < insert_newest(hs, h, limit).len(),
    ensures
        insert_newest(hs, h, limit)[i] == h || exists|j: int| 0 <= j < hs.len() && hs[j] == insert_newest(hs, h, limit)[i],
{
    let at = lower_bound(hs, h.0);
    lemma_lower_bound_range(hs, h.0);
    let r = insert_newest(hs, h, limit);
    if hs.len() < limit {
        if i < at {
            assert(r[i] == hs[i]);
        } else if i > at {
            assert(r[i] == hs[i - 1]);
        }
    } else if at > 0 {
        let t = hs.skip(1);
        if i < at - 1 {
            assert(r[i] == t[i]);
            assert(t[i] == hs[i + 1]);
        } else if i > at - 1 {
            assert(r[i] == t[i - 1]);
            assert(t[i - 1] == hs[i]);
        }
    } else {
        assert(r[i] == hs[i]);
    }
}


// ---------------------------------------------------------------------------
// Payload size
// ---------------------------------------------------------------------------

proof fn lemma_encode_concat(a: Seq<char>, b: Seq<char>)
    ensures
        vstd::utf8::encode_utf8(a + b).len() == vstd::utf8::encode_utf8(a).len() + vstd::utf8::encode_utf8(b).len(),
    decreases a.len(),
{
    if a.len() > 0 {
        assert((a + b).drop_first() =~= a.drop_first() + b);
        assert((a + b)[0] == a[0]);
        lemma_encode_concat(a.drop_first(), b);
    } else {
        assert(a + b =~= b);
    }
}

proof fn lemma_encode_char_len(c: char)
    ensures
        vstd::utf8::encode_utf8(seq![c]).len() == utf8_len(c),
{
    vstd::utf8::char_is_scalar(c);
    assert(seq![c].drop_first() =~= Seq::<char>::empty());
    assert(vstd::utf8::encode_utf8(Seq::<char>::empty()) =~= Seq::<u8>::empty());
    assert(vstd::utf8::encode_utf8(seq![c]) =~= vstd::utf8::encode_scalar(c as u32));
}

proof fn lemma_encode_escape_char_len(c: char)
    ensures
        vstd::utf8::encode_utf8(escape_char(c)).len() == escape_len(c),
{
    if is_escaped_char(c) {
        let e = escape_char(c);
        assert(e =~= seq![e[0]] + seq![e[1]]);
        lemma_encode_concat(seq![e[0]], seq![e[1]]);
        lemma_encode_char_len(e[0]);
        lemma_encode_char_len(e[1]);
    } else {
        lemma_encode_char_len(c);
    }
}

proof fn lemma_encode_escape_len(cs: Seq<char>)
    ensures
        vstd::utf8::encode_utf8(spec_escape(cs)).len() == escaped_len(cs),
    decreases cs.len(),
{
    if cs.len() > 0 {
        lemma_encode_escape_len(cs.skip(1));
        lemma_encode_concat(escape_char(cs[0]), spec_escape(cs.skip(1)));
        lemma_encode_escape_char_len(cs[0]);
    }
}

proof fn lemma_encode_truncated_len(cs: Seq<char>, budget: int)
    requires
        budget >= 0,
    ensures
        vstd::utf8::encode_utf8(truncated_escape(cs, budget)).len() <= budget,
    decreases cs.len(),
{
    if cs.len() > 0 && escape_len(cs[0]) <= budget {
        lemma_encode_truncated_len(cs.skip(1), budget - escape_len(cs[0]));
        lemma_encode_concat(escape_char(cs[0]), truncated_escape(cs.skip(1), budget - escape_len(cs[0])));
        lemma_encode_escape_char_len(cs[0]);
    }
}

proof fn lemma_ascii_encode_len(cs: Seq<char>)
    requires
        forall|i: int| 0 <= i < cs.len() ==> (cs[i] as u32) < 0x80,
    ensures
        vstd::utf8::encode_utf8(cs).len() == cs.len(),
    decreases cs.len(),
{
    if cs.len() > 0 {
        lemma_ascii_encode_len(cs.drop_first());
    }
}

/// The encoded payload never exceeds the payload area.
#[verifier::rlimit(100)]
#[verifier::spinoff_prover]
pub proof fn lemma_payload_fits(e: SpecLogEntry)
    requires
        encode_payload_ok(e),
    ensures
        vstd::utf8::encode_utf8(payload_text(e)).len() <= FLASH_LOG_PAYLOAD_SIZE,
{
    let kn = kind_name(e.kind);
    reveal_strlit("sms");
    reveal_strlit("call");
    reveal_strlit("system");
    reveal_strlit("network");
    reveal_strlit("user");
    reveal_strlit("ota");
    lemma_ascii_encode_len(kn);
    let p1 = seq!['1', '\t'];
    let fw = if e.forwarded { seq!['1'] } else { seq!['0'] };
    let tab = seq!['\t'];
    let ts = spec_escape(e.timestamp);
    let sd = truncated_escape(e.sender, sender_budget(e));
    let bd = truncated_escape(e.body_preview, body_budget(e));
    lemma_escaped_len_bound(e.timestamp);
    lemma_escaped_len_bound(e.sender);
    lemma_ascii_encode_len(p1);
    lemma_ascii_encode_len(fw);
    lemma_ascii_encode_len(tab);
    lemma_encode_escape_len(e.timestamp);
    lemma_encode_truncated_len(e.sender, sender_budget(e));
    lemma_encode_truncated_len(e.body_preview, body_budget(e));
    let t8 = tab + bd;
    let t7 = sd + t8;
    let t6 = tab + t7;
    let t5 = ts + t6;
    let t4 = tab + t5;
    let t3 = fw + t4;
    let t2 = tab + t3;
    let t1 = kn + t2;
    let t0 = p1 + t1;
    assert(payload_text(e) =~= t0);
    lemma_encode_concat(tab, bd);
    lemma_encode_concat(sd, t8);
    lemma_encode_concat(tab, t7);
    lemma_encode_concat(ts, t6);
    lemma_encode_concat(tab, t5);
    lemma_encode_concat(fw, t4);
    lemma_encode_concat(tab, t3);
    lemma_encode_concat(kn, t2);
    lemma_encode_concat(p1, t1);
}


// ---------------------------------------------------------------------------
// The ring
// ---------------------------------------------------------------------------

/// Sizes a storage must have: whole records, whole erase units of whole records.
pub open spec fn geometry_ok(size: int, erase_size: int) -> bool {
    size >= 256 && size % 256 == 0 && erase_size >= 256 && erase_size % 256 == 0 && size % erase_size == 0
}

/// The sequence number after `s`, wrapping from the largest back to 1.
pub open spec fn next_seq_after(s: u32) -> u32 {
    if s == u32::MAX { 1 } else { (s + 1) as u32 }
}

/// The storage contents after appending an entry at `slot`: the erase unit is erased
/// first when `slot` starts one, then the record is programmed.
pub open spec fn appended_contents(c: Seq<u8>, slot: int, slots_per_erase: int, seq: u32, e: SpecLogEntry) -> Seq<u8> {
    let c1 = if slot % slots_per_erase == 0 {
        erase_bytes(c, slot * 256, slots_per_erase * 256)
    } else {
        c
    };
    program_bytes(c1, slot * 256, spec_record(seq, vstd::utf8::encode_utf8(payload_text(e))))
}

/// Event log records in a flash-like storage, written round-robin.
pub struct FlashLogRing<S: LogFlashStorage> {
    storage: S,
    next_seq: u32,
    next_slot: usize,
    slots: usize,
    slots_per_erase: usize,
}

impl<S: LogFlashStorage> FlashLogRing<S> {
    /// The storage contents.
    pub closed spec fn flash(&self) -> Seq<u8> {
        self.storage.contents()
    }

    /// Number of record slots.
    pub closed spec fn slot_count(&self) -> int {
        self.slots as int
    }

    /// Record slots per erase unit.
    pub closed spec fn slots_per_erase_unit(&self) -> int {
        self.slots_per_erase as int
    }

    /// Sequence number of the next record.
    pub closed spec fn next_seq_value(&self) -> u32 {
        self.next_seq
    }

    /// Whether the storage under the ring never fails (see `LogFlashStorage::never_fails`).
    pub closed spec fn storage_never_fails(&self) -> bool {
        self.storage.never_fails()
    }

    /// Slot of the next record.
    pub closed spec fn next_slot_value(&self) -> int {
        self.next_slot as int
    }

    /// The ring's bookkeeping matches its storage.
    pub closed spec fn wf(&self) -> bool {
        &&& self.storage.obeys_model()
        &&& self.slots >= 1
        &&& self.slots_per_erase >= 1
        &&& storage_shape(self.storage.contents(), self.slots as int)
        &&& self.storage.erase_unit() == self.slots_per_erase * 256
        &&& self.next_slot < self.slots
        &&& self.slots % self.slots_per_erase == 0
        &&& self.next_seq >= 1
    }

    /// Opens a ring on a storage: checks its geometry and continues after the newest
    /// record found.
    pub fn mount(storage: S) -> (r: Result<Self, FlashLogError>)
        ensures
            storage.obeys_model() && !geometry_ok(storage.contents().len() as int, storage.erase_unit()) ==> (r matches Err(
                FlashLogError::InvalidGeometry { size, erase_size },
            ) && size == storage.contents().len() && erase_size == storage.erase_unit()),
            storage.obeys_model() ==> (r matches Ok(ring) ==> {
                &&& geometry_ok(storage.contents().len() as int, storage.erase_unit())
                &&& ring.wf()
                &&& ring.flash() == storage.contents()
                &&& ring.slot_count() == storage.contents().len() / 256
                &&& ring.slots_per_erase_unit() == storage.erase_unit() / 256
                &&& ring.storage_never_fails() == storage.never_fails()
                &&& (ring.next_seq_value(), ring.next_slot_value()) == spec_next_position(
                    storage.contents(),
                    ring.slot_count(),
                )
            }),
    {
        let mut storage = storage;
        let size = storage.len();
        let erase_size = storage.erase_size();
        if size < FLASH_LOG_RECORD_SIZE || size % FLASH_LOG_RECORD_SIZE != 0 || erase_size
            < FLASH_LOG_RECORD_SIZE || erase_size % FLASH_LOG_RECORD_SIZE != 0 || size % erase_size
            != 0 {
            return Err(FlashLogError::InvalidGeometry { size, erase_size });
        }
        let slots = size / FLASH_LOG_RECORD_SIZE;
        let slots_per_erase = erase_size / FLASH_LOG_RECORD_SIZE;
        let ghost c = storage.contents();
        let ghost ob = storage.obeys_model();
        let headers = match scan_record_headers(&mut storage, slots) {
            Ok(h) => h,
            Err(e) => return Err(e),
        };
        let ghost hv = headers_view(headers@);
        let mut best: Option<(u32, usize)> = None;
        let mut i: usize = 0;
        while i < headers.len()
            invariant
                i <= headers@.len(),
                hv == headers_view(headers@),
                ob ==> hv == headers_upto(c, slots as int),
                ob ==> storage_shape(c, slots as int),
                forall|k: int| 0 <= k < headers@.len() ==> (#[trigger] headers@[k]).1 < slots,
                match best {
                    None => best_of(hv.take(i as int)) is None,
                    Some(b) => best_of(hv.take(i as int)) == Some((b.0, b.1 as int)) && b.1 < slots,
                },
            decreases headers@.len() - i,
        {
            let h = headers[i];
            proof {
                assert(hv[i as int] == (h.0, h.1 as int));
            }
            let replace = match best {
                Some(b) => h.0 >= b.0,
                None => true,
            };
            if replace {
                best = Some(h);
            }
            i = i + 1;
            assert(hv.take(i as int).drop_last() =~= hv.take(i - 1));
        }
        assert(hv.take(headers@.len() as int) =~= hv);
        let (next_seq, next_slot) = match best {
            Some(b) => {
                let ns = if b.0 == u32::MAX { 1 } else { b.0 + 1 };
                (ns, (b.1 + 1) % slots)
            },
            None => (1, 0),
        };
        proof {
            lemma_slots_whole_units(size as int, erase_size as int);
        }
        Ok(FlashLogRing { storage, next_seq, next_slot, slots, slots_per_erase })
    }

    /// Writes an entry into the next slot, erasing its erase unit first when the slot
    /// starts one.
    pub fn append(&mut self, entry: &LogEntry) -> (r: Result<(), FlashLogError>)
        requires
            old(self).wf(),
            entry_within_limits(entry@),
        ensures
            final(self).wf(),
            final(self).slot_count() == old(self).slot_count(),
            final(self).slots_per_erase_unit() == old(self).slots_per_erase_unit(),
            final(self).storage_never_fails() == old(self).storage_never_fails(),
            old(self).storage_never_fails() && encode_payload_ok(entry@) ==> r is Ok,
            !encode_payload_ok(entry@) ==> (r matches Err(FlashLogError::EntryTooLarge { len, max })
                && len == payload_base_len(entry@) && max == FLASH_LOG_PAYLOAD_SIZE
                && final(self).flash() == old(self).flash()),
            r is Err ==> final(self).next_seq_value() == old(self).next_seq_value()
                && final(self).next_slot_value() == old(self).next_slot_value(),
            r is Ok ==> {
                &&& encode_payload_ok(entry@)
                &&& final(self).flash() == appended_contents(
                    old(self).flash(),
                    old(self).next_slot_value(),
                    old(self).slots_per_erase_unit(),
                    old(self).next_seq_value(),
                    entry@,
                )
                &&& final(self).next_seq_value() == next_seq_after(old(self).next_seq_value())
                &&& final(self).next_slot_value() == (old(self).next_slot_value() + 1) % old(self).slot_count()
            },
    {
        let payload = match entry.encode_payload() {
            Ok(p) => p,
            Err(e) => return Err(e),
        };
        proof {
            lemma_payload_fits(entry@);
        }
        let ghost c0 = self.storage.contents();
        if self.next_slot % self.slots_per_erase == 0 {
            proof {
                lemma_erase_unit_in_place(self.next_slot as int, self.slots_per_erase as int, self.slots as int);
            }
            let es = self.storage.erase_size();
            match self.storage.erase(self.next_slot * FLASH_LOG_RECORD_SIZE, es) {
                Ok(()) => {},
                Err(e) => return Err(e),
            }
        }
        let record = build_record(self.next_seq, payload.as_slice());
        match self.storage.write(self.next_slot * FLASH_LOG_RECORD_SIZE, record.as_slice()) {
            Ok(()) => {},
            Err(e) => return Err(e),
        }
        self.next_seq = if self.next_seq == u32::MAX { 1 } else { self.next_seq + 1 };
        self.next_slot = (self.next_slot + 1) % self.slots;
        Ok(())
    }

    /// All decodable entries, oldest first by sequence number.
    pub fn entries(&mut self) -> (r: Result<Vec<LogEntry>, FlashLogError>)
        requires
            old(self).wf(),
        ensures
            final(self).wf(),
            final(self).flash() == old(self).flash(),
            final(self).slot_count() == old(self).slot_count(),
            final(self).slots_per_erase_unit() == old(self).slots_per_erase_unit(),
            final(self).next_seq_value() == old(self).next_seq_value(),
            final(self).next_slot_value() == old(self).next_slot_value(),
            final(self).storage_never_fails() == old(self).storage_never_fails(),
            old(self).storage_never_fails() ==> r is Ok,
            r matches Ok(v) ==> v@.map_values(|e: LogEntry| e@) == sort_by_seq(
                records_upto(old(self).flash(), old(self).slot_count()),
            ).map_values(|r: (u32, SpecLogEntry)| r.1),
    {
        let records = match scan_records(&mut self.storage, self.slots) {
            Ok(r) => r,
            Err(e) => return Err(e),
        };
        let ghost rv = records_view(records@);
        let mut sorted: Vec<(u32, LogEntry)> = Vec::new();
        let mut i: usize = 0;
        let mut records = records;
        let ghost orig = records@;
        while i < records.len()
            invariant
                i <= records@.len(),
                records@ == orig,
                rv == records_view(orig),
                records_view(sorted@) == sort_by_seq(rv.take(i as int)),
            decreases records@.len() - i,
        {
            let seq = records[i].0;
            let mut at: usize = 0;
            let ghost sv = records_view(sorted@);
            assert(sv.skip(0) =~= sv);
            while at < sorted.len() && sorted[at].0 <= seq
                invariant
                    at <= sorted@.len(),
                    sv == records_view(sorted@),
                    upper_bound_rec(sv, seq) == at + upper_bound_rec(sv.skip(at as int), seq),
                decreases sorted@.len() - at,
            {
                assert(sv.skip(at as int).skip(1) =~= sv.skip(at + 1));
                at = at + 1;
            }
            if at < sorted.len() {
                assert(sv.skip(at as int)[0] == sv[at as int]);
            } else {
                assert(sv.skip(at as int).len() == 0);
            }
            let rec = (records[i].0, records[i].1.clone_entry());
            sorted.insert(at, rec);
            i = i + 1;
            assert(rv.take(i as int).drop_last() =~= rv.take(i - 1));
            assert(records_view(sorted@) =~= sv.insert(at as int, rec_view(rec)));
        }
        assert(rv.take(records@.len() as int) =~= rv);
        let mut out: Vec<LogEntry> = Vec::new();
        let mut k: usize = 0;
        let ghost sorted_v = records_view(sorted@);
        while k < sorted.len()
            invariant
                k <= sorted@.len(),
                sorted_v == records_view(sorted@),
                out@.map_values(|e: LogEntry| e@) == sorted_v.take(k as int).map_values(|r: (u32, SpecLogEntry)| r.1),
            decreases sorted@.len() - k,
        {
            assert(sorted_v[k as int] == (sorted@[k as int].0, sorted@[k as int].1@));
            let ghost before = out@.map_values(|e: LogEntry| e@);
            let item = sorted[k].1.clone_entry();
            out.push(item);
            assert(out@.map_values(|e: LogEntry| e@) =~= before.push(item@));
            assert(sorted_v.take(k + 1).map_values(|r: (u32, SpecLogEntry)| r.1) =~= sorted_v.take(
                k as int,
            ).map_values(|r: (u32, SpecLogEntry)| r.1).push(sorted_v[k as int].1));
            k = k + 1;
        }
        assert(sorted_v.take(sorted@.len() as int) =~= sorted_v);
        Ok(out)
    }

    /// The newest `n` entries, oldest first.
    pub fn last_n(&mut self, n: usize) -> (r: Result<Vec<LogEntry>, FlashLogError>)
        requires
            old(self).wf(),
        ensures
            final(self).wf(),
            final(self).flash() == old(self).flash(),
            final(self).slot_count() == old(self).slot_count(),
            final(self).slots_per_erase_unit() == old(self).slots_per_erase_unit(),
            final(self).next_seq_value() == old(self).next_seq_value(),
            final(self).next_slot_value() == old(self).next_slot_value(),
            final(self).storage_never_fails() == old(self).storage_never_fails(),
            old(self).storage_never_fails() ==> r is Ok,
            r matches Ok(v) ==> v@.map_values(|e: LogEntry| e@) == entries_of(
                old(self).flash(),
                newest_headers(old(self).flash(), old(self).slot_count(), n as int),
            ),
    {
        if n == 0 {
            return Ok(Vec::new());
        }
        let headers = match newest_record_headers(&mut self.storage, self.slots, n) {
            Ok(h) => h,
            Err(e) => return Err(e),
        };
        let ghost c = self.storage.contents();
        let ghost hv = headers_view(headers@);
        let mut entries: Vec<LogEntry> = Vec::new();
        let mut i: usize = 0;
        while i < headers.len()
            invariant
                i <= headers@.len(),
                self.wf(),
                self.storage.contents() == c,
                c == old(self).storage.contents(),
                self.slots == old(self).slots,
                self.slots_per_erase == old(self).slots_per_erase,
                self.next_seq == old(self).next_seq,
                self.next_slot == old(self).next_slot,
                self.storage.never_fails() == old(self).storage.never_fails(),
                hv == headers_view(headers@),
                forall|k: int| 0 <= k < headers@.len() ==> (#[trigger] headers@[k]).1 < self.slots,
                entries@.map_values(|e: LogEntry| e@) == entries_of(c, hv.take(i as int)),
            decreases headers@.len() - i,
        {
            let slot = headers[i].1;
            match read_record(&mut self.storage, slot) {
                Ok(Some((_seq, entry))) => {
                    entries.push(entry);
                },
                Ok(None) => {},
                Err(e) => return Err(e),
            }
            i = i + 1;
            assert(hv.take(i as int).drop_last() =~= hv.take(i - 1));
            assert(hv.take(i as int).last() == hv[i - 1]);
            assert(entries@.map_values(|e: LogEntry| e@) =~= entries_of(c, hv.take(i as int)));
        }
        assert(hv.take(headers@.len() as int) =~= hv);
        Ok(entries)
    }

    /// Number of valid records.
    pub fn entry_count(&mut self) -> (r: Result<usize, FlashLogError>)
        requires
            old(self).wf(),
        ensures
            final(self).wf(),
            final(self).flash() == old(self).flash(),
            final(self).slot_count() == old(self).slot_count(),
            final(self).slots_per_erase_unit() == old(self).slots_per_erase_unit(),
            final(self).next_seq_value() == old(self).next_seq_value(),
            final(self).next_slot_value() == old(self).next_slot_value(),
            final(self).storage_never_fails() == old(self).storage_never_fails(),
            old(self).storage_never_fails() ==> r is Ok,
            r matches Ok(n) ==> n == headers_upto(old(self).flash(), old(self).slot_count()).len(),
    {
        let ghost c = self.storage.contents();
        let mut count: usize = 0;
        let mut slot: usize = 0;
        while slot < self.slots
            invariant
                slot <= self.slots,
                self.wf(),
                self.storage.contents() == c,
                c == old(self).storage.contents(),
                self.slots == old(self).slots,
                self.slots_per_erase == old(self).slots_per_erase,
                self.next_seq == old(self).next_seq,
                self.next_slot == old(self).next_slot,
                self.storage.never_fails() == old(self).storage.never_fails(),
                count == headers_upto(c, slot as int).len(),
                count <= slot,
            decreases self.slots - slot,
        {
            match read_record_header(&mut self.storage, slot) {
                Ok(Some(_)) => {
                    count = count + 1;
                },
                Ok(None) => {},
                Err(e) => return Err(e),
            }
            slot = slot + 1;
        }
        Ok(count)
    }

    /// The newest decodable entry of one kind, without reading the whole log.
    pub fn latest_of_kind(&mut self, kind: LogKind) -> (r: Result<Option<LogEntry>, FlashLogError>)
        requires
            old(self).wf(),
        ensures
            final(self).wf(),
            final(self).flash() == old(self).flash(),
            final(self).slot_count() == old(self).slot_count(),
            final(self).slots_per_erase_unit() == old(self).slots_per_erase_unit(),
            final(self).next_seq_value() == old(self).next_seq_value(),
            final(self).next_slot_value() == old(self).next_slot_value(),
            final(self).storage_never_fails() == old(self).storage_never_fails(),
            old(self).storage_never_fails() ==> r is Ok,
            r matches Ok(o) ==> match latest_kind_upto(old(self).flash(), old(self).slot_count(), kind) {
                None => o is None,
                Some((_, k)) => match entry_at(old(self).flash(), k) {
                    Some(e) => o matches Some(x) && x@ == e,
                    None => o is None,
                },
            },
    {
        let ghost c = self.storage.contents();
        let mut latest: Option<(u32, usize)> = None;
        let mut slot: usize = 0;
        while slot < self.slots
            invariant
                slot <= self.slots,
                self.wf(),
                self.storage.contents() == c,
                c == old(self).storage.contents(),
                self.slots == old(self).slots,
                self.slots_per_erase == old(self).slots_per_erase,
                self.next_seq == old(self).next_seq,
                self.next_slot == old(self).next_slot,
                self.storage.never_fails() == old(self).storage.never_fails(),
                match latest {
                    None => latest_kind_upto(c, slot as int, kind) is None,
                    Some(l) => latest_kind_upto(c, slot as int, kind) == Some((l.0, l.1 as int)) && l.1 < slot,
                },
            decreases self.slots - slot,
        {
            match read_record_kind(&mut self.storage, slot) {
                Ok(Some((seq, k))) => {
                    if k == kind {
                        let replace = match latest {
                            Some(cur) => seq > cur.0,
                            None => true,
                        };
                        if replace {
                            latest = Some((seq, slot));
                        }
                    }
                },
                Ok(None) => {},
                Err(e) => return Err(e),
            }
            slot = slot + 1;
        }
        match latest {
            None => Ok(None),
            Some((_, lslot)) => match read_record(&mut self.storage, lslot) {
                Ok(Some((_, entry))) => Ok(Some(entry)),
                Ok(None) => Ok(None),
                Err(e) => Err(e),
            },
        }
    }

    /// A page of entries, newest first: `offset` newest entries skipped, at most `limit`.
    pub fn page(&mut self, offset: usize, limit: usize) -> (r: Result<Vec<LogEntry>, FlashLogError>)
        requires
            old(self).wf(),
        ensures
            final(self).wf(),
            final(self).flash() == old(self).flash(),
            final(self).slot_count() == old(self).slot_count(),
            final(self).slots_per_erase_unit() == old(self).slots_per_erase_unit(),
            final(self).next_seq_value() == old(self).next_seq_value(),
            final(self).next_slot_value() == old(self).next_slot_value(),
            final(self).storage_never_fails() == old(self).storage_never_fails(),
            old(self).storage_never_fails() ==> r is Ok,
            r matches Ok(v) ==> v@.map_values(|e: LogEntry| e@) == (if limit == 0 {
                Seq::<SpecLogEntry>::empty()
            } else {
                entries_of(
                    old(self).flash(),
                    page_headers(
                        newest_headers(
                            old(self).flash(),
                            old(self).slot_count(),
                            if offset + limit > usize::MAX { usize::MAX as int } else { offset + limit },
                        ),
                        offset as int,
                        limit as int,
                    ),
                )
            }),
    {
        if limit == 0 {
            return Ok(Vec::new());
        }
        let keep = if offset > usize::MAX - limit { usize::MAX } else { offset + limit };
        let headers = match newest_record_headers(&mut self.storage, self.slots, keep) {
            Ok(h) => h,
            Err(e) => return Err(e),
        };
        let ghost c = self.storage.contents();
        let ghost hv = headers_view(headers@);
        let ghost sel = page_headers(hv, offset as int, limit as int);
        let mut page: Vec<LogEntry> = Vec::new();
        if offset >= headers.len() {
            assert(sel =~= Seq::<(u32, int)>::empty());
            return Ok(page);
        }
        let avail = headers.len() - offset;
        let count = if limit < avail { limit } else { avail };
        proof {
            lemma_page_headers_shape(hv, offset as int, limit as int);
        }
        let mut t: usize = 0;
        while t < count
            invariant
                t <= count,
                count <= avail,
                avail == headers@.len() - offset,
                offset < headers@.len(),
                sel.len() == count,
                forall|j: int| 0 <= j < count ==> #[trigger] sel[j] == hv[headers@.len() - 1 - offset - j],
                self.wf(),
                self.storage.contents() == c,
                c == old(self).storage.contents(),
                self.slots == old(self).slots,
                self.slots_per_erase == old(self).slots_per_erase,
                self.next_seq == old(self).next_seq,
                self.next_slot == old(self).next_slot,
                self.storage.never_fails() == old(self).storage.never_fails(),
                hv == headers_view(headers@),
                forall|k: int| 0 <= k < headers@.len() ==> (#[trigger] headers@[k]).1 < self.slots,
                page@.map_values(|e: LogEntry| e@) == entries_of(c, sel.take(t as int)),
            decreases count - t,
        {
            let idx = headers.len() - 1 - offset - t;
            let slot = headers[idx].1;
            assert(sel[t as int] == hv[idx as int]);
            match read_record(&mut self.storage, slot) {
                Ok(Some((_seq, entry))) => {
                    page.push(entry);
                },
                Ok(None) => {},
                Err(e) => return Err(e),
            }
            t = t + 1;
            assert(sel.take(t as int).drop_last() =~= sel.take(t - 1));
            assert(sel.take(t as int).last() == sel[t - 1]);
            assert(page@.map_values(|e: LogEntry| e@) =~= entries_of(c, sel.take(t as int)));
        }
        assert(sel.take(count as int) =~= sel);
        Ok(page)
    }

    /// Mounting the storage of a ring again gives back its entries: a ring mounted on
    /// storage that holds a well-formed ring's bytes (as `mount` states of its result)
    /// has as many slots, so it reads the same records, in the same order, and
    /// continues after the newest of them.
    pub proof fn lemma_remount_entries(&self, m: &Self)
        requires
            self.wf(),
            m.flash() == self.flash(),
            m.slot_count() == self.flash().len() / 256,
        ensures
            m.slot_count() == self.slot_count(),
            sort_by_seq(records_upto(m.flash(), m.slot_count())) == sort_by_seq(
                records_upto(self.flash(), self.slot_count()),
            ),
            headers_upto(m.flash(), m.slot_count()) == headers_upto(self.flash(), self.slot_count()),
    {
    }

    /// The storage, handing the ring back.
    pub fn into_storage(self) -> (s: S)
        ensures
            s.contents() == self.flash(),
    {
        self.storage
    }
}

/// The erase unit that starts at a slot on an erase-unit boundary lies on erase-unit
/// bounds and inside the storage.
proof fn lemma_erase_unit_in_place(slot: int, per: int, slots: int)
    requires
        0 <= slot < slots,
        per >= 1,
        slot % per == 0,
        slots % per == 0,
    ensures
        (slot * 256) % (per * 256) == 0,
        slot * 256 + per * 256 <= slots * 256,
{
    let q = slot / per;
    let big_q = slots / per;
    lemma_fundamental_div_mod(slot, per);
    lemma_fundamental_div_mod(slots, per);
    assert(slot == per * q);
    assert(slots == per * big_q);
    assert(slot * 256 == q * (per * 256)) by (nonlinear_arith)
        requires
            slot == per * q,
    ;
    lemma_mod_multiples_basic(q, per * 256);
    assert(q < big_q) by (nonlinear_arith)
        requires
            slot == per * q,
            slots == per * big_q,
            slot < slots,
            per >= 1,
    ;
    assert(slot + per <= slots) by (nonlinear_arith)
        requires
            slot == per * q,
            slots == per * big_q,
            q + 1 <= big_q,
            per >= 1,
    ;
}

/// Slots that fill whole erase units come in whole erase units.
proof fn lemma_slots_whole_units(size: int, es: int)
    requires
        size % 256 == 0,
        es % 256 == 0,
        es >= 256,
        size % es == 0,
    ensures
        (size / 256) % (es / 256) == 0,
{
    let sl = size / 256;
    let e = es / 256;
    let k = size / es;
    lemma_fundamental_div_mod(size, es);
    lemma_fundamental_div_mod(size, 256);
    lemma_fundamental_div_mod(es, 256);
    assert(sl == k * e) by (nonlinear_arith)
        requires
            size == es * k,
            size == 256 * sl,
            es == 256 * e,
    ;
    lemma_mod_multiples_basic(k, e);
}

/// Every header of the first `n` slots names one of those slots.
proof fn lemma_headers_upto_range(c: Seq<u8>, n: int)
    ensures
        forall|i: int| 0 <= i < headers_upto(c, n).len() ==> 0 <= (#[trigger] headers_upto(c, n)[i]).1 < n,
        headers_upto(c, n).len() <= if n < 0 { 0 } else { n },
    decreases n,
{
    if n > 0 {
        lemma_headers_upto_range(c, n - 1);
    }
}

/// The model of one (sequence, entry) record.
pub open spec fn rec_view(r: (u32, LogEntry)) -> (u32, SpecLogEntry) {
    (r.0, r.1@)
}

impl LogEntry {
    /// A field-by-field copy of the entry.
    pub fn clone_entry(&self) -> (r: LogEntry)
        ensures
            r@ == self@,
    {
        LogEntry {
            kind: self.kind,
            sender: crate::strutil::to_owned_string(self.sender.as_str()),
            body_preview: crate::strutil::to_owned_string(self.body_preview.as_str()),
            timestamp: crate::strutil::to_owned_string(self.timestamp.as_str()),
            forwarded: self.forwarded,
        }
    }
}


proof fn lemma_page_headers_shape(hs: Seq<(u32, int)>, offset: int, limit: int)
    requires
        0 <= offset < hs.len(),
        limit >= 1,
    ensures
        page_headers(hs, offset, limit).len() == if limit < hs.len() - offset { limit } else { hs.len() - offset },
        forall|j: int|
            0 <= j < page_headers(hs, offset, limit).len() ==> #[trigger] page_headers(hs, offset, limit)[j]
                == hs[hs.len() - 1 - offset - j],
{
    let r = hs.reverse().skip(offset);
    assert forall|j: int| 0 <= j < r.len() implies #[trigger] r[j] == hs[hs.len() - 1 - offset - j] by {
        assert(r[j] == hs.reverse()[offset + j]);
    }
}


// ---------------------------------------------------------------------------
// LogRing
// ---------------------------------------------------------------------------

/// The ring behind a `LogRing`: the built-in RAM storage, or one supplied by the caller.
enum RingStorage {
    Volatile(FlashLogRing<MemFlashLogStorage>),
    External(FlashLogRing<Box<dyn LogFlashStorage>>),
}

/// Whether `s` has fewer than `limit` characters (stops counting at the limit).
fn chars_fewer_than(s: &str, limit: usize) -> (r: bool)
    ensures
        r == (s@.len() < limit),
{
    if limit == 0 {
        return false;
    }
    let mut n: usize = 0;
    for c in it: s.chars()
        invariant
            n == it.index(),
            n < limit,
            it.seq() == s@,
    {
        if n >= limit - 1 {
            return false;
        }
        n = n + 1;
    }
    n < limit
}

/// Event log backed by flash-like storage.
pub struct LogRing {
    flash: RingStorage,
}

/// No record slot of an erased storage holds a valid record.
proof fn lemma_erased_has_no_headers(c: Seq<u8>, n: int)
    requires
        all_erased(c),
        0 <= n,
        n * 256 <= c.len(),
    ensures
        headers_upto(c, n) == Seq::<(u32, int)>::empty(),
    decreases n,
{
    if n > 0 {
        lemma_erased_has_no_headers(c, n - 1);
        let r = record_at(c, n - 1);
        assert forall|i: int| 0 <= i < r.len() implies r[i] == 0xFF by {
            assert(r[i] == c[(n - 1) * 256 + i]);
        }
    }
}

impl LogRing {
    /// The ring's bookkeeping matches its storage.
    pub closed spec fn wf(&self) -> bool {
        match &self.flash {
            RingStorage::Volatile(f) => f.wf(),
            RingStorage::External(f) => f.wf(),
        }
    }

    /// The storage contents.
    pub closed spec fn flash(&self) -> Seq<u8> {
        match &self.flash {
            RingStorage::Volatile(f) => f.flash(),
            RingStorage::External(f) => f.flash(),
        }
    }

    /// Number of record slots.
    pub closed spec fn slot_count(&self) -> int {
        match &self.flash {
            RingStorage::Volatile(f) => f.slot_count(),
            RingStorage::External(f) => f.slot_count(),
        }
    }

    /// A well-formed log has one slot per 256 bytes of its storage.
    pub proof fn lemma_slots_of_flash(&self)
        requires
            self.wf(),
        ensures
            self.slot_count() == self.flash().len() / 256,
    {
    }

    /// Record slots per erase unit.
    pub closed spec fn slots_per_erase_unit(&self) -> int {
        match &self.flash {
            RingStorage::Volatile(f) => f.slots_per_erase_unit(),
            RingStorage::External(f) => f.slots_per_erase_unit(),
        }
    }

    /// Sequence number of the next record.
    pub closed spec fn next_seq_value(&self) -> u32 {
        match &self.flash {
            RingStorage::Volatile(f) => f.next_seq_value(),
            RingStorage::External(f) => f.next_seq_value(),
        }
    }

    /// Slot of the next record.
    pub closed spec fn next_slot_value(&self) -> int {
        match &self.flash {
            RingStorage::Volatile(f) => f.next_slot_value(),
            RingStorage::External(f) => f.next_slot_value(),
        }
    }

    /// Whether the storage never fails: always so in RAM, and on other storage what it
    /// promises.
    pub closed spec fn never_fails(&self) -> bool {
        match &self.flash {
            RingStorage::Volatile(f) => f.storage_never_fails(),
            RingStorage::External(f) => f.storage_never_fails(),
        }
    }

    /// A log in RAM: 64 records, erase units of 16 records, nothing logged yet.
    #[verifier::spinoff_prover]
    pub fn new() -> (r: Self)
        ensures
            r.wf(),
            r.slot_count() == 64,
            r.flash() == Seq::new(16384, |i: int| 0xFFu8),
            r.never_fails(),
            headers_upto(r.flash(), r.slot_count()) == Seq::<(u32, int)>::empty(),
    {
        let storage = MemFlashLogStorage::new(DEFAULT_VOLATILE_LOG_BYTES, DEFAULT_VOLATILE_ERASE_BYTES);
        proof {
            lemma_erased_has_no_headers(storage.contents(), 64);
        }
        LogRing {
            flash: RingStorage::Volatile(
                FlashLogRing {
                    storage,
                    next_seq: 1,
                    next_slot: 0,
                    slots: DEFAULT_VOLATILE_LOG_BYTES / FLASH_LOG_RECORD_SIZE,
                    slots_per_erase: DEFAULT_VOLATILE_ERASE_BYTES / FLASH_LOG_RECORD_SIZE,
                },
            ),
        }
    }

    /// A log on the given storage, mounted as `FlashLogRing::mount` does.
    pub fn with_flash(storage: Box<dyn LogFlashStorage>) -> (r: Result<Self, FlashLogError>)
        ensures
            storage.obeys_model() && !geometry_ok(storage.contents().len() as int, storage.erase_unit()) ==> (r matches Err(
                FlashLogError::InvalidGeometry { size, erase_size },
            ) && size == storage.contents().len() && erase_size == storage.erase_unit()),
            storage.obeys_model() ==> (r matches Ok(log) ==> log.wf() && log.flash() == storage.contents() && log.slot_count()
                == storage.contents().len() / 256 && log.never_fails() == storage.never_fails()),
    {
        match FlashLogRing::mount(storage) {
            Ok(flash) => Ok(LogRing { flash: RingStorage::External(flash) }),
            Err(e) => Err(e),
        }
    }

    /// Push a new entry, evicting the oldest erase unit when the storage wraps. A failed
    /// write is dropped: the log is best-effort. So is an entry with a field of 2^28
    /// characters or more, which no device holds in memory.
    pub fn push(&mut self, entry: LogEntry)
        requires
            old(self).wf(),
        ensures
            final(self).wf(),
            final(self).slot_count() == old(self).slot_count(),
            final(self).slots_per_erase_unit() == old(self).slots_per_erase_unit(),
            final(self).never_fails() == old(self).never_fails(),
            !(entry_within_limits(entry@) && encode_payload_ok(entry@)) ==> final(self).flash()
                == old(self).flash() && final(self).next_seq_value() == old(self).next_seq_value()
                && final(self).next_slot_value() == old(self).next_slot_value(),
            old(self).never_fails() && entry_within_limits(entry@) && encode_payload_ok(entry@) ==> {
                &&& final(self).flash() == appended_contents(
                    old(self).flash(),
                    old(self).next_slot_value(),
                    old(self).slots_per_erase_unit(),
                    old(self).next_seq_value(),
                    entry@,
                )
                &&& final(self).next_seq_value() == next_seq_after(old(self).next_seq_value())
                &&& final(self).next_slot_value() == (old(self).next_slot_value() + 1) % old(self).slot_count()
            },
    {
        if !(chars_fewer_than(entry.timestamp.as_str(), 0x1000_0000) && chars_fewer_than(
            entry.sender.as_str(),
            0x1000_0000,
        ) && chars_fewer_than(entry.body_preview.as_str(), 0x1000_0000)) {
            return;
        }
        match &mut self.flash {
            RingStorage::Volatile(f) => {
                let _ = f.append(&entry);
            },
            RingStorage::External(f) => {
                let _ = f.append(&entry);
            },
        }
    }

    /// The last `n` entries (most recent last); empty when the storage cannot be read.
    pub fn last_n(&mut self, n: usize) -> (r: Vec<LogEntry>)
        requires
            old(self).wf(),
        ensures
            final(self).wf(),
            final(self).flash() == old(self).flash(),
            final(self).slot_count() == old(self).slot_count(),
            final(self).never_fails() == old(self).never_fails(),
            r@.len() == 0 || r@.map_values(|e: LogEntry| e@) == entries_of(
                old(self).flash(),
                newest_headers(old(self).flash(), old(self).slot_count(), n as int),
            ),
            old(self).never_fails() ==> r@.map_values(|e: LogEntry| e@) == entries_of(
                old(self).flash(),
                newest_headers(old(self).flash(), old(self).slot_count(), n as int),
            ),
    {
        let res = match &mut self.flash {
            RingStorage::Volatile(f) => f.last_n(n),
            RingStorage::External(f) => f.last_n(n),
        };
        match res {
            Ok(v) => v,
            Err(_) => Vec::new(),
        }
    }

    /// The newest entry of one kind; `None` also when the storage cannot be read.
    pub fn latest_of_kind(&mut self, kind: LogKind) -> (r: Option<LogEntry>)
        requires
            old(self).wf(),
        ensures
            final(self).wf(),
            final(self).flash() == old(self).flash(),
            final(self).slot_count() == old(self).slot_count(),
            final(self).never_fails() == old(self).never_fails(),
            r matches Some(x) ==> match latest_kind_upto(old(self).flash(), old(self).slot_count(), kind) {
                None => false,
                Some((_, k)) => entry_at(old(self).flash(), k) == Some(x@),
            },
            old(self).never_fails() ==> match latest_kind_upto(old(self).flash(), old(self).slot_count(), kind) {
                None => r is None,
                Some((_, k)) => match entry_at(old(self).flash(), k) {
                    Some(e) => r matches Some(x) && x@ == e,
                    None => r is None,
                },
            },
    {
        let res = match &mut self.flash {
            RingStorage::Volatile(f) => f.latest_of_kind(kind),
            RingStorage::External(f) => f.latest_of_kind(kind),
        };
        match res {
            Ok(o) => o,
            Err(_) => None,
        }
    }

    /// A page of entries, newest first, where `offset` skips newest entries first.
    pub fn page(&mut self, offset: usize, limit: usize) -> (r: Result<Vec<LogEntry>, FlashLogError>)
        requires
            old(self).wf(),
        ensures
            final(self).wf(),
            final(self).flash() == old(self).flash(),
            final(self).slot_count() == old(self).slot_count(),
            final(self).never_fails() == old(self).never_fails(),
            old(self).never_fails() ==> r is Ok,
            r matches Ok(v) ==> v@.map_values(|e: LogEntry| e@) == (if limit == 0 {
                Seq::<SpecLogEntry>::empty()
            } else {
                entries_of(
                    old(self).flash(),
                    page_headers(
                        newest_headers(
                            old(self).flash(),
                            old(self).slot_count(),
                            if offset + limit > usize::MAX { usize::MAX as int } else { offset + limit },
                        ),
                        offset as int,
                        limit as int,
                    ),
                )
            }),
    {
        match &mut self.flash {
            RingStorage::Volatile(f) => f.page(offset, limit),
            RingStorage::External(f) => f.page(offset, limit),
        }
    }

    /// Number of valid records; 0 when the storage cannot be read.
    pub fn len(&mut self) -> (n: usize)
        requires
            old(self).wf(),
        ensures
            final(self).wf(),
            final(self).flash() == old(self).flash(),
            final(self).slot_count() == old(self).slot_count(),
            final(self).never_fails() == old(self).never_fails(),
            n == 0 || n == headers_upto(old(self).flash(), old(self).slot_count()).len(),
            old(self).never_fails() ==> n == headers_upto(old(self).flash(), old(self).slot_count()).len(),
    {
        let res = match &mut self.flash {
            RingStorage::Volatile(f) => f.entry_count(),
            RingStorage::External(f) => f.entry_count(),
        };
        match res {
            Ok(n) => n,
            Err(_) => 0,
        }
    }

    /// Whether no valid record can be counted.
    pub fn is_empty(&mut self) -> (b: bool)
        requires
            old(self).wf(),
        ensures
            final(self).wf(),
            final(self).flash() == old(self).flash(),
            final(self).slot_count() == old(self).slot_count(),
            final(self).never_fails() == old(self).never_fails(),
            !b ==> headers_upto(old(self).flash(), old(self).slot_count()).len() > 0,
            old(self).never_fails() ==> (b <==> headers_upto(old(self).flash(), old(self).slot_count()).len() == 0),
    {
        self.len() == 0
    }
}

impl Default for LogRing {
    fn default() -> (r: Self)
        ensures
            r.wf(),
            r.slot_count() == 64,
            headers_upto(r.flash(), r.slot_count()) == Seq::<(u32, int)>::empty(),
    {
        LogRing::new()
    }
}


/// Reading back an appended entry: after `append` writes an entry that fits into a slot
/// that starts an erase unit (so it is erased first) or that was still erased, the slot
/// holds a valid record with the entry's sequence number and decodes to the entry.
pub proof fn lemma_append_readback(c: Seq<u8>, slot: int, slots_per_erase: int, seq: u32, e: SpecLogEntry)
    requires
        0 <= slot,
        (slot + 1) * 256 <= c.len(),
        slots_per_erase >= 1,
        seq != 0,
        slot % slots_per_erase == 0 || all_erased(record_at(c, slot)),
        payload_base_len(e) + escaped_len(e.sender) + escaped_len(e.body_preview) <= FLASH_LOG_PAYLOAD_SIZE,
    ensures
        header_at(appended_contents(c, slot, slots_per_erase, seq, e), slot) == Some(seq),
        entry_at(appended_contents(c, slot, slots_per_erase, seq, e), slot) == Some(e),
{
    lemma_escaped_len_bound(e.sender);
    lemma_escaped_len_bound(e.body_preview);
    lemma_payload_fits(e);
    let payload = vstd::utf8::encode_utf8(payload_text(e));
    let rec = spec_record(seq, payload);
    let c1 = if slot % slots_per_erase == 0 {
        erase_bytes(c, slot * 256, slots_per_erase * 256)
    } else {
        c
    };
    assert(all_erased(c1.subrange(slot * 256, slot * 256 + 256))) by {
        if slot % slots_per_erase == 0 {
            assert(slots_per_erase * 256 >= 256);
        } else {
            assert forall|i: int| 0 <= i < 256 implies #[trigger] c1.subrange(slot * 256, slot * 256 + 256)[i] == 0xFF by {
                assert(c1.subrange(slot * 256, slot * 256 + 256)[i] == record_at(c, slot)[i]);
            }
        }
    }
    assert(rec.len() == 256);
    lemma_program_erased(c1, slot * 256, rec);
    let c2 = appended_contents(c, slot, slots_per_erase, seq, e);
    assert(record_at(c2, slot) == rec);
    lemma_record_roundtrip(seq, payload);
    lemma_payload_roundtrip(e);
}

// ---------------------------------------------------------------------------
// Pages are the newest records first
// ---------------------------------------------------------------------------

/// Headers ordered by sequence number, each inserted before the equal ones already there.
pub open spec fn sort_headers(hs: Seq<(u32, int)>) -> Seq<(u32, int)>
    decreases hs.len(),
{
    if hs.len() == 0 {
        Seq::empty()
    } else {
        let p = sort_headers(hs.drop_last());
        p.insert(lower_bound(p, hs.last().0), hs.last())
    }
}

/// Headers in non-decreasing order of sequence number.
pub open spec fn seq_sorted(hs: Seq<(u32, int)>) -> bool {
    forall|i: int, j: int| 0 <= i <= j < hs.len() ==> hs[i].0 <= hs[j].0
}

/// The last `k` headers (all of them when there are fewer).
pub open spec fn tail_of(hs: Seq<(u32, int)>, k: int) -> Seq<(u32, int)> {
    if hs.len() <= k {
        hs
    } else {
        hs.skip(hs.len() - k)
    }
}

proof fn lemma_lower_bound_split(hs: Seq<(u32, int)>, s: u32)
    requires
        seq_sorted(hs),
    ensures
        0 <= lower_bound(hs, s) <= hs.len(),
        forall|i: int| 0 <= i < lower_bound(hs, s) ==> (#[trigger] hs[i]).0 < s,
        forall|i: int| lower_bound(hs, s) <= i < hs.len() ==> (#[trigger] hs[i]).0 >= s,
    decreases hs.len(),
{
    if hs.len() > 0 && hs[0].0 < s {
        let t = hs.skip(1);
        assert(seq_sorted(t)) by {
            assert forall|i: int, j: int| 0 <= i <= j < t.len() implies t[i].0 <= t[j].0 by {
                assert(t[i] == hs[i + 1] && t[j] == hs[j + 1]);
            }
        }
        lemma_lower_bound_split(t, s);
        assert forall|i: int| 0 <= i < lower_bound(hs, s) implies (#[trigger] hs[i]).0 < s by {
            if i > 0 {
                assert(hs[i] == t[i - 1]);
            }
        }
        assert forall|i: int| lower_bound(hs, s) <= i < hs.len() implies (#[trigger] hs[i]).0 >= s by {
            assert(hs[i] == t[i - 1]);
        }
    }
}

proof fn lemma_insert_sorted(hs: Seq<(u32, int)>, h: (u32, int))
    requires
        seq_sorted(hs),
    ensures
        seq_sorted(hs.insert(lower_bound(hs, h.0), h)),
{
    lemma_lower_bound_split(hs, h.0);
    let p = lower_bound(hs, h.0);
    let u = hs.insert(p, h);
    assert forall|i: int, j: int| 0 <= i <= j < u.len() implies u[i].0 <= u[j].0 by {
        if i < p {
            assert(u[i] == hs[i]);
            if j < p {
                assert(u[j] == hs[j]);
            } else if j > p {
                assert(u[j] == hs[j - 1]);
            }
        } else if i == p {
            if j > p {
                assert(u[j] == hs[j - 1]);
            }
        } else {
            assert(u[i] == hs[i - 1]);
            assert(u[j] == hs[j - 1]);
        }
    }
}

proof fn lemma_sort_headers_sorted(hs: Seq<(u32, int)>)
    ensures
        seq_sorted(sort_headers(hs)),
        sort_headers(hs).len() == hs.len(),
    decreases hs.len(),
{
    if hs.len() > 0 {
        lemma_sort_headers_sorted(hs.drop_last());
        let p = sort_headers(hs.drop_last());
        lemma_lower_bound_split(p, hs.last().0);
        lemma_insert_sorted(p, hs.last());
    }
}

proof fn lemma_lower_bound_skip(hs: Seq<(u32, int)>, d: int, s: u32)
    requires
        seq_sorted(hs),
        0 <= d <= hs.len(),
    ensures
        lower_bound(hs.skip(d), s) == (if lower_bound(hs, s) >= d { lower_bound(hs, s) - d } else { 0 }),
{
    let t = hs.skip(d);
    assert(seq_sorted(t)) by {
        assert forall|i: int, j: int| 0 <= i <= j < t.len() implies t[i].0 <= t[j].0 by {
            assert(t[i] == hs[i + d] && t[j] == hs[j + d]);
        }
    }
    lemma_lower_bound_split(hs, s);
    lemma_lower_bound_split(t, s);
    let p = lower_bound(hs, s);
    let q = lower_bound(t, s);
    if p >= d {
        if q < p - d {
            assert(t[q] == hs[q + d]);
        }
        if q > p - d {
            assert(t[p - d] == hs[p]);
        }
    } else if q > 0 {
        assert(t[0] == hs[d]);
    }
}

proof fn lemma_insert_newest_tail(hs: Seq<(u32, int)>, h: (u32, int), lim: int)
    requires
        seq_sorted(hs),
        lim >= 1,
    ensures
        insert_newest(tail_of(hs, lim), h, lim) == tail_of(hs.insert(lower_bound(hs, h.0), h), lim),
{
    lemma_lower_bound_split(hs, h.0);
    let p = lower_bound(hs, h.0);
    let u = hs.insert(p, h);
    if hs.len() < lim {
    } else {
        let d = hs.len() - lim;
        let t = tail_of(hs, lim);
        assert(t == hs.skip(d));
        lemma_lower_bound_skip(hs, d, h.0);
        let at = lower_bound(t, h.0);
        assert(tail_of(u, lim) == u.skip(d + 1));
        if at > 0 {
            let v = t.skip(1).insert(at - 1, h);
            let w = u.skip(d + 1);
            assert(v =~= w) by {
                assert forall|j: int| 0 <= j < w.len() implies #[trigger] v[j] == w[j] by {
                    if j < at - 1 {
                        assert(u[d + 1 + j] == hs[d + 1 + j]);
                    } else if j > at - 1 {
                        assert(u[d + 1 + j] == hs[d + j]);
                    }
                }
            }
        } else {
            let w = u.skip(d + 1);
            assert(t =~= w) by {
                assert forall|j: int| 0 <= j < t.len() implies #[trigger] t[j] == w[j] by {
                    assert(u[d + 1 + j] == hs[d + j]);
                }
            }
        }
    }
}

proof fn lemma_newest_is_tail(c: Seq<u8>, n: int, lim: int)
    requires
        lim >= 1,
    ensures
        newest_upto(c, n, lim) == tail_of(sort_headers(headers_upto(c, n)), lim),
    decreases n,
{
    if n <= 0 {
        assert(tail_of(sort_headers(headers_upto(c, n)), lim) =~= Seq::<(u32, int)>::empty());
    } else {
        lemma_newest_is_tail(c, n - 1, lim);
        let hu = headers_upto(c, n - 1);
        lemma_sort_headers_sorted(hu);
        match header_at(c, n - 1) {
            Some(s) => {
                assert(hu.push((s, n - 1)).drop_last() =~= hu);
                lemma_insert_newest_tail(sort_headers(hu), (s, n - 1), lim);
            },
            None => {},
        }
    }
}

/// A log page is the newest records first: taking the newest `offset + limit` headers
/// and then the page's `limit` after the `offset` newest gives the same headers as
/// ordering every valid record by sequence number, newest first, skipping `offset` and
/// taking `limit`; so the page's entries are those records' entries in that order.
pub proof fn lemma_page_is_newest_first(c: Seq<u8>, slots: int, offset: int, limit: int)
    requires
        offset >= 0,
        limit >= 1,
    ensures
        page_headers(newest_headers(c, slots, offset + limit), offset, limit) == page_headers(
            sort_headers(headers_upto(c, slots)),
            offset,
            limit,
        ),
        entries_of(c, page_headers(newest_headers(c, slots, offset + limit), offset, limit)) == entries_of(
            c,
            page_headers(sort_headers(headers_upto(c, slots)), offset, limit),
        ),
{
    let big = offset + limit;
    lemma_newest_is_tail(c, slots, big);
    let srt = sort_headers(headers_upto(c, slots));
    let t = tail_of(srt, big);
    assert(newest_headers(c, slots, big) == t);
    if srt.len() > big {
        let d = srt.len() - big;
        assert(t.len() == big);
        let a = page_headers(t, offset, limit);
        let b = page_headers(srt, offset, limit);
        assert(a =~= b) by {
            assert(a.len() == limit);
            assert(b.len() == limit);
            assert forall|j: int| 0 <= j < limit implies #[trigger] a[j] == b[j] by {
                assert(a[j] == t.reverse()[offset + j]);
                assert(t.reverse()[offset + j] == t[big - 1 - offset - j]);
                assert(t[big - 1 - offset - j] == srt[d + big - 1 - offset - j]);
                assert(b[j] == srt.reverse()[offset + j]);
            }
        }
    }
}

// ---------------------------------------------------------------------------
// An appended entry is the newest
// ---------------------------------------------------------------------------

proof fn lemma_upper_bound_all_le(rs: Seq<(u32, SpecLogEntry)>, s: u32)
    requires
        forall|i: int| 0 <= i < rs.len() ==> (#[trigger] rs[i]).0 <= s,
    ensures
        upper_bound_rec(rs, s) == rs.len(),
    decreases rs.len(),
{
    if rs.len() > 0 {
        assert(rs[0].0 <= s);
        assert forall|i: int| 0 <= i < rs.skip(1).len() implies (#[trigger] rs.skip(1)[i]).0 <= s by {
            assert(rs.skip(1)[i] == rs[i + 1]);
        }
        lemma_upper_bound_all_le(rs.skip(1), s);
    }
}

proof fn lemma_upper_bound_before_last(rs: Seq<(u32, SpecLogEntry)>, s: u32)
    requires
        rs.len() > 0,
        rs.last().0 > s,
    ensures
        upper_bound_rec(rs, s) < rs.len(),
    decreases rs.len(),
{
    if rs[0].0 <= s {
        assert(rs.len() > 1);
        assert(rs.skip(1).last() == rs.last());
        lemma_upper_bound_before_last(rs.skip(1), s);
    }
}

proof fn lemma_sort_by_seq_members(rs: Seq<(u32, SpecLogEntry)>)
    ensures
        sort_by_seq(rs).len() == rs.len(),
        forall|j: int| 0 <= j < sort_by_seq(rs).len() ==> rs.contains(#[trigger] sort_by_seq(rs)[j]),
    decreases rs.len(),
{
    if rs.len() > 0 {
        let q = rs.drop_last();
        lemma_sort_by_seq_members(q);
        let p = sort_by_seq(q);
        lemma_upper_bound_range(p, rs.last().0);
        let at = upper_bound_rec(p, rs.last().0);
        assert forall|j: int| 0 <= j < sort_by_seq(rs).len() implies rs.contains(#[trigger] sort_by_seq(rs)[j]) by {
            let u = p.insert(at, rs.last());
            if j < at {
                assert(u[j] == p[j]);
                let i = choose|i: int| 0 <= i < q.len() && q[i] == p[j];
                assert(rs[i] == q[i]);
            } else if j == at {
                assert(rs[rs.len() - 1] == rs.last());
            } else {
                assert(u[j] == p[j - 1]);
                let i = choose|i: int| 0 <= i < q.len() && q[i] == p[j - 1];
                assert(rs[i] == q[i]);
            }
        }
    }
}

/// Sorting by sequence number puts the one record with the greatest number last.
proof fn lemma_sort_by_seq_max_last(rs: Seq<(u32, SpecLogEntry)>, x: (u32, SpecLogEntry))
    requires
        rs.contains(x),
        forall|i: int| 0 <= i < rs.len() ==> (#[trigger] rs[i]).0 < x.0 || rs[i] == x,
    ensures
        sort_by_seq(rs).len() > 0,
        sort_by_seq(rs).last() == x,
    decreases rs.len(),
{
    let q = rs.drop_last();
    let y = rs.last();
    lemma_sort_by_seq_members(q);
    let p = sort_by_seq(q);
    lemma_upper_bound_range(p, y.0);
    assert(rs[rs.len() - 1] == y);
    assert forall|i: int| 0 <= i < q.len() implies (#[trigger] q[i]).0 < x.0 || q[i] == x by {
        assert(q[i] == rs[i]);
    }
    if y == x {
        assert forall|j: int| 0 <= j < p.len() implies (#[trigger] p[j]).0 <= y.0 by {
            assert(q.contains(p[j]));
            let i = choose|i: int| 0 <= i < q.len() && q[i] == p[j];
        }
        lemma_upper_bound_all_le(p, y.0);
        assert(p.insert(p.len() as int, y).last() == y);
    } else {
        let k = choose|k: int| 0 <= k < rs.len() && rs[k] == x;
        assert(k < rs.len() - 1);
        assert(q[k] == x);
        lemma_sort_by_seq_max_last(q, x);
        assert(y.0 < x.0);
        lemma_upper_bound_before_last(p, y.0);
        let at = upper_bound_rec(p, y.0);
        assert(p.insert(at, y).last() == p.last());
    }
}

/// Slots other than the appended one hold no record or the record they held.
proof fn lemma_appended_other_slot(
    c: Seq<u8>,
    slots: int,
    slot: int,
    per: int,
    seq: u32,
    e: SpecLogEntry,
    k: int,
)
    requires
        c.len() == slots * 256,
        0 <= slot < slots,
        0 <= k < slots,
        k != slot,
        per >= 1,
        slot % per == 0 ==> slot + per <= slots,
        payload_base_len(e) + escaped_len(e.sender) + escaped_len(e.body_preview) <= FLASH_LOG_PAYLOAD_SIZE,
    ensures
        header_at(appended_contents(c, slot, per, seq, e), k) is None || header_at(appended_contents(c, slot, per, seq, e), k)
            == header_at(c, k),
{
    lemma_escaped_len_bound(e.sender);
    lemma_escaped_len_bound(e.body_preview);
    lemma_payload_fits(e);
    let rec = spec_record(seq, vstd::utf8::encode_utf8(payload_text(e)));
    assert(rec.len() == 256);
    let c1 = if slot % per == 0 {
        erase_bytes(c, slot * 256, per * 256)
    } else {
        c
    };
    let c2 = appended_contents(c, slot, per, seq, e);
    let r2 = record_at(c2, k);
    assert forall|i: int| 0 <= i < 256 implies #[trigger] r2[i] == c1[k * 256 + i] by {
        assert(r2[i] == c2[k * 256 + i]);
        if k < slot {
            assert(k * 256 + i < slot * 256);
        } else {
            assert(k * 256 + i >= slot * 256 + 256);
        }
    }
    if slot % per == 0 && slot <= k < slot + per {
        assert(all_erased(r2)) by {
            assert forall|i: int| 0 <= i < r2.len() implies r2[i] == 0xFF by {
                assert(r2[i] == c1[k * 256 + i]);
                assert(slot * 256 <= k * 256 + i < slot * 256 + per * 256);
            }
        }
    } else {
        assert(r2 =~= record_at(c, k)) by {
            assert forall|i: int| 0 <= i < 256 implies r2[i] == record_at(c, k)[i] by {
                assert(r2[i] == c1[k * 256 + i]);
                if slot % per == 0 {
                    assert(!(slot * 256 <= k * 256 + i < slot * 256 + per * 256)) by {
                        if k < slot {
                        } else {
                            assert(k >= slot + per);
                        }
                    }
                }
            }
        }
    }
}

proof fn lemma_records_below(c2: Seq<u8>, n: int, slot: int, seq: u32, e: SpecLogEntry)
    requires
        0 <= n,
        header_at(c2, slot) == Some(seq),
        entry_at(c2, slot) == Some(e),
        forall|k: int| 0 <= k < n && k != slot ==> (#[trigger] header_at(c2, k) matches Some(s) ==> s < seq),
    ensures
        forall|i: int| 0 <= i < records_upto(c2, n).len() ==> (#[trigger] records_upto(c2, n)[i]).0 < seq
            || records_upto(c2, n)[i] == (seq, e),
        0 <= slot < n ==> records_upto(c2, n).contains((seq, e)),
    decreases n,
{
    if n > 0 {
        lemma_records_below(c2, n - 1, slot, seq, e);
        let p = records_upto(c2, n - 1);
        let r = records_upto(c2, n);
        match (header_at(c2, n - 1), entry_at(c2, n - 1)) {
            (Some(s), Some(x)) => {
                assert(r == p.push((s, x)));
                assert forall|i: int| 0 <= i < r.len() implies (#[trigger] r[i]).0 < seq || r[i] == (seq, e) by {
                    if i < p.len() {
                        assert(r[i] == p[i]);
                    } else if n - 1 == slot {
                        assert(r[i] == (seq, e));
                    }
                }
                if 0 <= slot < n {
                    if slot == n - 1 {
                        assert(r[p.len() as int] == (seq, e));
                    } else {
                        let j = choose|j: int| 0 <= j < p.len() && p[j] == (seq, e);
                        assert(r[j] == p[j]);
                    }
                }
            },
            _ => {
                assert(slot != n - 1);
            },
        }
    }
}

/// An appended entry is the newest: after an entry that fits whole is written with a
/// sequence number above every record in the storage (the numbers have not wrapped),
/// into a slot that is erased or starts an erase unit, the records ordered by sequence
/// number (what `entries` reads) end with it.
pub proof fn lemma_append_is_newest(c: Seq<u8>, slots: int, slot: int, per: int, seq: u32, e: SpecLogEntry)
    requires
        c.len() == slots * 256,
        0 <= slot < slots,
        per >= 1,
        slot % per == 0 ==> slot + per <= slots,
        seq != 0,
        slot % per == 0 || all_erased(record_at(c, slot)),
        payload_base_len(e) + escaped_len(e.sender) + escaped_len(e.body_preview) <= FLASH_LOG_PAYLOAD_SIZE,
        forall|k: int| 0 <= k < slots ==> (#[trigger] header_at(c, k) matches Some(s) ==> s < seq),
    ensures
        sort_by_seq(records_upto(appended_contents(c, slot, per, seq, e), slots)).len() > 0,
        sort_by_seq(records_upto(appended_contents(c, slot, per, seq, e), slots)).last() == (seq, e),
{
    let c2 = appended_contents(c, slot, per, seq, e);
    lemma_append_readback(c, slot, per, seq, e);
    assert forall|k: int| 0 <= k < slots && k != slot implies (#[trigger] header_at(c2, k) matches Some(s) ==> s < seq) by {
        lemma_appended_other_slot(c, slots, slot, per, seq, e, k);
    }
    lemma_records_below(c2, slots, slot, seq, e);
    lemma_sort_by_seq_max_last(records_upto(c2, slots), (seq, e));
}

// ---------------------------------------------------------------------------
// Pages over the entries
// ---------------------------------------------------------------------------

/// The records the headers name: each header's number with the entry of its slot.
pub open spec fn records_of(c: Seq<u8>, hs: Seq<(u32, int)>) -> Seq<(u32, SpecLogEntry)> {
    hs.map_values(|h: (u32, int)| (h.0, entry_at(c, h.1)->0))
}

/// A page of entries: newest first, the `offset` newest skipped, at most `limit`.
pub open spec fn entries_page(es: Seq<SpecLogEntry>, offset: int, limit: int) -> Seq<SpecLogEntry> {
    if offset >= es.len() {
        Seq::empty()
    } else {
        let r = es.reverse().skip(offset);
        if limit >= r.len() { r } else { r.take(limit) }
    }
}

proof fn lemma_headers_upto_members(c: Seq<u8>, n: int)
    ensures
        forall|i: int| 0 <= i < headers_upto(c, n).len() ==> 0 <= (#[trigger] headers_upto(c, n)[i]).1 < n
            && header_at(c, headers_upto(c, n)[i].1) == Some(headers_upto(c, n)[i].0),
    decreases n,
{
    if n > 0 {
        lemma_headers_upto_members(c, n - 1);
        let p = headers_upto(c, n - 1);
        match header_at(c, n - 1) {
            Some(s) => {
                assert forall|i: int| 0 <= i < p.push((s, n - 1)).len() implies 0 <= (#[trigger] p.push((s, n - 1))[i]).1 < n
                    && header_at(c, p.push((s, n - 1))[i].1) == Some(p.push((s, n - 1))[i].0) by {
                    if i < p.len() {
                        assert(p.push((s, n - 1))[i] == p[i]);
                    }
                }
            },
            None => {},
        }
    }
}

proof fn lemma_sort_headers_members(hs: Seq<(u32, int)>)
    ensures
        sort_headers(hs).len() == hs.len(),
        forall|j: int| 0 <= j < sort_headers(hs).len() ==> hs.contains(#[trigger] sort_headers(hs)[j]),
    decreases hs.len(),
{
    if hs.len() > 0 {
        let q = hs.drop_last();
        lemma_sort_headers_members(q);
        let p = sort_headers(q);
        lemma_lower_bound_range(p, hs.last().0);
        let at = lower_bound(p, hs.last().0);
        assert forall|j: int| 0 <= j < sort_headers(hs).len() implies hs.contains(#[trigger] sort_headers(hs)[j]) by {
            let u = p.insert(at, hs.last());
            if j < at {
                assert(u[j] == p[j]);
                let i = choose|i: int| 0 <= i < q.len() && q[i] == p[j];
                assert(hs[i] == q[i]);
            } else if j == at {
                assert(hs[hs.len() - 1] == hs.last());
            } else {
                assert(u[j] == p[j - 1]);
                let i = choose|i: int| 0 <= i < q.len() && q[i] == p[j - 1];
                assert(hs[i] == q[i]);
            }
        }
    }
}

proof fn lemma_bounds_agree(c: Seq<u8>, hs: Seq<(u32, int)>, s: u32)
    requires
        forall|i: int| 0 <= i < hs.len() ==> (#[trigger] hs[i]).0 != s,
    ensures
        upper_bound_rec(records_of(c, hs), s) == lower_bound(hs, s),
    decreases hs.len(),
{
    if hs.len() > 0 {
        assert(hs[0].0 != s);
        assert(records_of(c, hs)[0].0 == hs[0].0);
        assert(records_of(c, hs).skip(1) =~= records_of(c, hs.skip(1)));
        assert forall|i: int| 0 <= i < hs.skip(1).len() implies (#[trigger] hs.skip(1)[i]).0 != s by {
            assert(hs.skip(1)[i] == hs[i + 1]);
        }
        lemma_bounds_agree(c, hs.skip(1), s);
    }
}

/// With every record decoding and no sequence number used twice, sorting the records
/// by number gives the records of the sorted headers.
proof fn lemma_sorted_records(c: Seq<u8>, n: int)
    requires
        0 <= n,
        forall|k: int| 0 <= k < n ==> (#[trigger] header_at(c, k)) is Some ==> entry_at(c, k) is Some,
        forall|k1: int, k2: int|
            0 <= k1 < n && 0 <= k2 < n && k1 != k2 && #[trigger] header_at(c, k1) is Some && #[trigger] header_at(c, k2)
                is Some ==> header_at(c, k1) != header_at(c, k2),
    ensures
        sort_by_seq(records_upto(c, n)) == records_of(c, sort_headers(headers_upto(c, n))),
    decreases n,
{
    if n > 0 {
        lemma_sorted_records(c, n - 1);
        let hu = headers_upto(c, n - 1);
        match header_at(c, n - 1) {
            Some(s) => {
                assert(header_at(c, n - 1) is Some);
                let e = entry_at(c, n - 1)->0;
                assert(records_upto(c, n) == records_upto(c, n - 1).push((s, e)));
                assert(records_upto(c, n).drop_last() =~= records_upto(c, n - 1));
                assert(hu.push((s, n - 1)).drop_last() =~= hu);
                let srt = sort_headers(hu);
                lemma_headers_upto_members(c, n - 1);
                lemma_sort_headers_members(hu);
                assert forall|i: int| 0 <= i < srt.len() implies (#[trigger] srt[i]).0 != s by {
                    assert(hu.contains(srt[i]));
                    let j = choose|j: int| 0 <= j < hu.len() && hu[j] == srt[i];
                    let k = hu[j].1;
                    assert(0 <= k < n - 1 && header_at(c, k) == Some(hu[j].0));
                    assert(header_at(c, k) is Some);
                }
                lemma_bounds_agree(c, srt, s);
                lemma_lower_bound_range(srt, s);
                let at = lower_bound(srt, s);
                assert(records_of(c, srt.insert(at, (s, n - 1))) =~= records_of(c, srt).insert(at, (s, e)));
            },
            None => {},
        }
    }
}

proof fn lemma_entries_all_decode(c: Seq<u8>, hs: Seq<(u32, int)>)
    requires
        forall|i: int| 0 <= i < hs.len() ==> (#[trigger] entry_at(c, hs[i].1)) is Some,
    ensures
        entries_of(c, hs) == records_of(c, hs).map_values(|r: (u32, SpecLogEntry)| r.1),
    decreases hs.len(),
{
    if hs.len() > 0 {
        assert forall|i: int| 0 <= i < hs.drop_last().len() implies (#[trigger] entry_at(c, hs.drop_last()[i].1)) is Some by {
            assert(hs.drop_last()[i] == hs[i]);
        }
        lemma_entries_all_decode(c, hs.drop_last());
        assert(hs[hs.len() - 1] == hs.last());
        assert(entry_at(c, hs.last().1) is Some);
        assert(records_of(c, hs).map_values(|r: (u32, SpecLogEntry)| r.1) =~= records_of(c, hs.drop_last()).map_values(
            |r: (u32, SpecLogEntry)| r.1,
        ).push(entry_at(c, hs.last().1)->0));
    }
}

/// A log page is the newest entries first: when every record decodes and no sequence
/// number is used twice (it has not wrapped), the page at `offset` of at most `limit`
/// entries is the entries in the order `entries` reads them, reversed, with the
/// `offset` newest skipped, cut to `limit`.
pub proof fn lemma_page_is_reversed_entries(c: Seq<u8>, slots: int, offset: int, limit: int)
    requires
        0 <= slots,
        offset >= 0,
        limit >= 1,
        forall|k: int| 0 <= k < slots ==> (#[trigger] header_at(c, k)) is Some ==> entry_at(c, k) is Some,
        forall|k1: int, k2: int|
            0 <= k1 < slots && 0 <= k2 < slots && k1 != k2 && #[trigger] header_at(c, k1) is Some && #[trigger] header_at(
                c,
                k2,
            ) is Some ==> header_at(c, k1) != header_at(c, k2),
    ensures
        entries_of(c, page_headers(newest_headers(c, slots, offset + limit), offset, limit)) == entries_page(
            sort_by_seq(records_upto(c, slots)).map_values(|r: (u32, SpecLogEntry)| r.1),
            offset,
            limit,
        ),
{
    lemma_page_is_newest_first(c, slots, offset, limit);
    lemma_sorted_records(c, slots);
    let srt = sort_headers(headers_upto(c, slots));
    lemma_sort_headers_members(headers_upto(c, slots));
    lemma_headers_upto_members(c, slots);
    let ph = page_headers(srt, offset, limit);
    let es = records_of(c, srt).map_values(|r: (u32, SpecLogEntry)| r.1);
    assert forall|i: int| 0 <= i < ph.len() implies (#[trigger] entry_at(c, ph[i].1)) is Some by {
        let j = offset + i;
        assert(ph[i] == srt.reverse()[j]);
        assert(ph[i] == srt[srt.len() - 1 - j]);
        assert(headers_upto(c, slots).contains(srt[srt.len() - 1 - j]));
        let m = choose|m: int| 0 <= m < headers_upto(c, slots).len() && headers_upto(c, slots)[m] == srt[srt.len() - 1 - j];
        assert(header_at(c, headers_upto(c, slots)[m].1) is Some);
    }
    lemma_entries_all_decode(c, ph);
    assert(records_of(c, ph).map_values(|r: (u32, SpecLogEntry)| r.1) =~= entries_page(es, offset, limit));
}

} // verus!
