//! `/log [offset]`: pages through the event log, newest first, with inline buttons
//! to move between pages.

use crate::commands::{Command, CommandContext};
use crate::i18n::en::{desc_log, log_button_newer, log_button_older, log_empty, log_header, log_read_failed};
use crate::i18n::{push_html_escaped, spec_html_escape};
use crate::im::{InlineKeyboard, InlineKeyboardButton, MessageFormat};
use crate::log_ring::{
    entries_of, flash_error_text, LogRing, headers_upto, newest_headers, page_headers, LogEntry, LogKind,
    SpecLogEntry, LOG_PAGE_SIZE,
};
use crate::strutil::{
    chars_start_with, new_string, parse_unsigned_max, push_decimal, push_str, spec_decimal,
    spec_parse_unsigned, spec_trim, starts_with, str_to_chars, chars_to_string, to_owned_string, trim_str,
};
use vstd::prelude::*;

verus! {

/// `/log`.
pub struct LogCommand;

/// A rendered log page: text, navigation buttons and text format.
pub struct LogPage {
    pub text: String,
    pub keyboard: Option<InlineKeyboard>,
    pub format: MessageFormat,
}

/// The page offset `/log` asks for: the trimmed argument as a `usize`, else 0.
pub open spec fn spec_log_offset(args: Seq<char>) -> usize {
    match spec_parse_unsigned(spec_trim(args)) {
        Some(v) => if v <= usize::MAX { v as usize } else { 0 },
        None => 0,
    }
}

/// Parses the offset argument of `/log`.
pub fn parse_log_offset(args: &str) -> (r: usize)
    ensures
        r == spec_log_offset(args@),
{
    let t = trim_str(args);
    match parse_unsigned_max(t.as_str(), usize::MAX as u64) {
        Some(v) => v as usize,
        None => 0,
    }
}

/// The offset a `log:<n>` button callback asks for.
pub open spec fn spec_log_callback(data: Seq<char>) -> Option<usize> {
    if starts_with(data, "log:"@) {
        match spec_parse_unsigned(data.skip(4)) {
            Some(v) => if v <= usize::MAX { Some(v as usize) } else { None },
            None => None,
        }
    } else {
        None
    }
}

/// Parses a `log:<n>` button callback.
pub fn parse_log_callback(data: &str) -> (r: Option<usize>)
    ensures
        r == spec_log_callback(data@),
{
    let cs = str_to_chars(data);
    let p = str_to_chars("log:");
    proof {
        reveal_strlit("log:");
    }
    if !chars_start_with(cs.as_slice(), p.as_slice()) {
        return None;
    }
    let rest = chars_to_string(vstd::slice::slice_subrange(cs.as_slice(), 4, cs.len()));
    assert(rest@ =~= data@.skip(4));
    match parse_unsigned_max(rest.as_str(), usize::MAX as u64) {
        Some(v) => Some(v as usize),
        None => None,
    }
}

/// `a - b`, or 0 when `b` is larger.
pub open spec fn sat_sub(a: usize, b: usize) -> usize {
    if a >= b { (a - b) as usize } else { 0 }
}

/// `a + b`, or the largest `usize` when it does not fit.
pub open spec fn sat_add(a: usize, b: usize) -> usize {
    if a + b > usize::MAX { usize::MAX } else { (a + b) as usize }
}

/// The navigation buttons of a page, as (label, callback data): `Newer` when there is a
/// newer page, `Older` when there is an older one.
pub open spec fn spec_log_buttons(total: usize, offset: usize, page_len: usize) -> Seq<(Seq<char>, Seq<char>)> {
    let newer_offset = if offset >= total { sat_sub(total, 16) } else { sat_sub(offset, 16) };
    let newer = if total > 0 && offset > 0 {
        seq![("Newer"@, "log:"@ + spec_decimal(newer_offset as nat))]
    } else {
        Seq::empty()
    };
    let older_offset = sat_add(offset, page_len);
    let older = if page_len > 0 && older_offset < total {
        seq![("Older"@, "log:"@ + spec_decimal(older_offset as nat))]
    } else {
        Seq::empty()
    };
    newer + older
}

/// Whether a keyboard is one row holding exactly the given buttons.
pub open spec fn keyboard_is(kb: &InlineKeyboard, buttons: Seq<(Seq<char>, Seq<char>)>) -> bool {
    &&& kb.rows@.len() == 1
    &&& kb.rows@[0]@.len() == buttons.len()
    &&& forall|i: int| 0 <= i < buttons.len() ==> (#[trigger] kb.rows@[0]@[i]).text@ == buttons[i].0
        && kb.rows@[0]@[i].callback_data@ == buttons[i].1
}

fn log_callback_data(offset: usize) -> (r: String)
    ensures
        r@ == "log:"@ + spec_decimal(offset as nat),
{
    let mut out = new_string();
    push_str(&mut out, "log:");
    push_decimal(&mut out, offset as u64);
    out
}

/// The navigation keyboard of a page; none when there is nowhere to go.
pub fn log_keyboard(total: usize, offset: usize, page_len: usize) -> (r: Option<InlineKeyboard>)
    ensures
        spec_log_buttons(total, offset, page_len).len() == 0 <==> r is None,
        r matches Some(kb) ==> keyboard_is(&kb, spec_log_buttons(total, offset, page_len)),
{
    let mut buttons: Vec<InlineKeyboardButton> = Vec::new();
    let ghost bs = spec_log_buttons(total, offset, page_len);
    if total > 0 && offset > 0 {
        let newer_offset = if offset >= total {
            if total >= LOG_PAGE_SIZE { total - LOG_PAGE_SIZE } else { 0 }
        } else {
            if offset >= LOG_PAGE_SIZE { offset - LOG_PAGE_SIZE } else { 0 }
        };
        let data = log_callback_data(newer_offset);
        buttons.push(InlineKeyboardButton::new(log_button_newer(), data.as_str()));
    }
    let older_offset = if offset > usize::MAX - page_len { usize::MAX } else { offset + page_len };
    if page_len > 0 && older_offset < total {
        let data = log_callback_data(older_offset);
        buttons.push(InlineKeyboardButton::new(log_button_older(), data.as_str()));
    }
    assert(buttons@.len() == bs.len());
    assert(forall|i: int| 0 <= i < bs.len() ==> (#[trigger] buttons@[i]).text@ == bs[i].0 && buttons@[i].callback_data@ == bs[i].1);
    if buttons.len() == 0 {
        None
    } else {
        Some(InlineKeyboard::single_row(buttons))
    }
}

/// The HTML block of one log entry.
pub open spec fn spec_entry_html(e: SpecLogEntry) -> Seq<char> {
    "<blockquote><b>"@ + spec_html_escape(e.timestamp) + "</b> "@ + kind_label(e.kind) + " - "@
        + spec_html_escape(e.sender) + ": "@ + spec_html_escape(e.body_preview) + "</blockquote>\n"@
}

/// The display label of a kind.
pub open spec fn kind_label(k: LogKind) -> Seq<char> {
    match k {
        LogKind::Sms => "SMS"@,
        LogKind::Call => "CALL"@,
        LogKind::System => "SYS"@,
        LogKind::Network => "NET"@,
        LogKind::User => "USER"@,
        LogKind::Ota => "OTA"@,
    }
}

/// The HTML blocks of the entries, in order.
pub open spec fn spec_entries_html(es: Seq<SpecLogEntry>) -> Seq<char>
    decreases es.len(),
{
    if es.len() == 0 {
        Seq::empty()
    } else {
        spec_entries_html(es.drop_last()) + spec_entry_html(es.last())
    }
}

/// The text of a page: header, then the entries or the empty notice.
pub open spec fn spec_log_page_text(total: usize, offset: usize, es: Seq<SpecLogEntry>) -> Seq<char> {
    "Log page: "@ + spec_decimal(es.len()) + " entries, total "@ + spec_decimal(total as nat) + ", offset "@
        + spec_decimal(offset as nat) + ".\n"@ + if es.len() == 0 {
        "No SMS history."@
    } else {
        spec_entries_html(es)
    }
}

/// Whether a page shows the given entries: text, buttons, and HTML format unless empty.
pub open spec fn page_shows(p: &LogPage, total: usize, offset: usize, es: Seq<SpecLogEntry>) -> bool {
    &&& p.text@ == spec_log_page_text(total, offset, es)
    &&& p.format == (if es.len() == 0 { MessageFormat::Plain } else { MessageFormat::Html })
    &&& (spec_log_buttons(total, offset, es.len() as usize).len() == 0 <==> p.keyboard is None)
    &&& (p.keyboard matches Some(kb) ==> keyboard_is(&kb, spec_log_buttons(total, offset, es.len() as usize)))
}

fn push_log_entry_html(out: &mut String, entry: &LogEntry)
    ensures
        final(out)@ == old(out)@ + spec_entry_html(entry@),
{
    push_str(out, "<blockquote><b>");
    push_html_escaped(out, entry.timestamp.as_str());
    push_str(out, "</b> ");
    push_str(out, entry.kind.label());
    push_str(out, " - ");
    push_html_escaped(out, entry.sender.as_str());
    push_str(out, ": ");
    push_html_escaped(out, entry.body_preview.as_str());
    push_str(out, "</blockquote>\n");
}

/// The page showing `entries`.
pub fn log_page_of(total: usize, offset: usize, entries: &Vec<LogEntry>) -> (r: LogPage)
    ensures
        page_shows(&r, total, offset, entries@.map_values(|e: LogEntry| e@)),
{
    let ghost es = entries@.map_values(|e: LogEntry| e@);
    let page_len = entries.len();
    let mut out = log_header(page_len, total, offset, LOG_PAGE_SIZE);
    if page_len == 0 {
        push_str(&mut out, log_empty());
    } else {
        let ghost head = out@;
        let mut i: usize = 0;
        while i < page_len
            invariant
                i <= page_len,
                page_len == entries@.len(),
                es == entries@.map_values(|e: LogEntry| e@),
                out@ == head + spec_entries_html(es.take(i as int)),
            decreases page_len - i,
        {
            push_log_entry_html(&mut out, &entries[i]);
            assert(es.take(i + 1).drop_last() =~= es.take(i as int));
            assert(es.take(i + 1).last() == entries@[i as int]@);
            i = i + 1;
        }
        assert(es.take(page_len as int) =~= es);
    }
    LogPage {
        text: out,
        keyboard: log_keyboard(total, offset, page_len),
        format: if page_len == 0 {
            MessageFormat::Plain
        } else {
            MessageFormat::Html
        },
    }
}

/// The entries a page at `offset` shows (as `LogRing::page` reads them).
pub open spec fn spec_page_entries(flash: Seq<u8>, slots: int, offset: usize) -> Seq<SpecLogEntry> {
    entries_of(
        flash,
        page_headers(
            newest_headers(flash, slots, if offset + 16 > usize::MAX { usize::MAX as int } else { offset + 16 }),
            offset as int,
            16,
        ),
    )
}

/// Render the log page at `offset`. When the log cannot be read the page says so.
pub fn render_log_page(ctx: &CommandContext, log_ring: &mut LogRing, offset: usize) -> (r: LogPage)
    requires
        old(log_ring).wf(),
    ensures
        final(log_ring).wf(),
        final(log_ring).flash() == old(log_ring).flash(),
        ({
            let flash = old(log_ring).flash();
            let slots = old(log_ring).slot_count();
            ||| exists|total: usize| (total == 0 || total == headers_upto(flash, slots).len()) && #[trigger] page_shows(
                &r,
                total,
                offset,
                spec_page_entries(flash, slots, offset),
            )
            ||| (exists|m: Seq<char>| r.text@ == "Log read failed: "@ + m) && r.keyboard is None && r.format
                == MessageFormat::Plain
        }),
        final(log_ring).never_fails() == old(log_ring).never_fails(),
        old(log_ring).never_fails() ==> exists|total: usize|
            total == headers_upto(old(log_ring).flash(), old(log_ring).slot_count()).len()
                && #[trigger] page_shows(
                &r,
                total,
                offset,
                spec_page_entries(old(log_ring).flash(), old(log_ring).slot_count(), offset),
            ),
{
    let total = log_ring.len();
    match log_ring.page(offset, LOG_PAGE_SIZE) {
        Ok(entries) => {
            let r = log_page_of(total, offset, &entries);
            assert(page_shows(&r, total, offset, spec_page_entries(old(log_ring).flash(), old(log_ring).slot_count(), offset)));
            r
        },
        Err(e) => {
            let m = e.message();
            LogPage { text: log_read_failed(m.as_str()), keyboard: None, format: MessageFormat::Plain }
        },
    }
}

impl Command for LogCommand {
    open spec fn spec_name(&self) -> Seq<char> {
        "log"@
    }

    open spec fn spec_description(&self) -> Seq<char> {
        "Show event log page: /log [offset]"@
    }

    open spec fn replies(&self, args: Seq<char>, ctx: &CommandContext, log: LogRing, reply: Seq<char>) -> bool {
        let flash = log.flash();
        let slots = log.slot_count();
        let offset = spec_log_offset(args);
        ||| exists|total: usize, p: LogPage|
            (total == 0 || total == headers_upto(flash, slots).len()) && #[trigger] page_shows(
                &p,
                total,
                offset,
                spec_page_entries(flash, slots, offset),
            ) && reply == p.text@
        ||| exists|m: Seq<char>| reply == "Log read failed: "@ + m
    }

    fn name(&self) -> (r: &'static str) {
        "log"
    }

    fn description(&self) -> (r: &'static str) {
        desc_log()
    }

    /// The text of the log page at the offset given (the newest page by default).
    fn handle(&self, args: &str, ctx: &CommandContext, log_ring: &mut LogRing) -> (r: String)
        ensures
            final(log_ring).flash() == old(log_ring).flash(),
            ({
                let flash = old(log_ring).flash();
                let slots = old(log_ring).slot_count();
                let offset = spec_log_offset(args@);
                ||| exists|total: usize, p: LogPage|
                    (total == 0 || total == headers_upto(flash, slots).len()) && #[trigger] page_shows(
                        &p,
                        total,
                        offset,
                        spec_page_entries(flash, slots, offset),
                    ) && r@ == p.text@
                ||| exists|m: Seq<char>| r@ == "Log read failed: "@ + m
            }),
    {
        let ghost flash = log_ring.flash();
        let ghost slots = log_ring.slot_count();
        let offset = parse_log_offset(args);
        let page = render_log_page(ctx, log_ring, offset);
        proof {
            if exists|total: usize|
                (total == 0 || total == headers_upto(flash, slots).len()) && #[trigger] page_shows(
                    &page,
                    total,
                    offset,
                    spec_page_entries(flash, slots, offset),
                ) {
                let total = choose|total: usize|
                    (total == 0 || total == headers_upto(flash, slots).len()) && #[trigger] page_shows(
                        &page,
                        total,
                        offset,
                        spec_page_entries(flash, slots, offset),
                    );
                assert(page_shows(&page, total, offset, spec_page_entries(flash, slots, offset)));
            }
        }
        page.text
    }
}

} // verus!
