//! Telegram Bot API backend: request bodies and update conversion.
//!
//! The HTTP transport and the `MessageSink` / `MessageSource` implementation live in
//! the firmware binary; everything that decides what goes over the wire is here.

pub mod http;
pub mod types;
pub mod worker;

use super::{InboundCallback, InboundDocument, InboundMessage, InlineKeyboard, InlineKeyboardButton, MessageFormat, MessageId};
use crate::strutil::{new_string, push_char, push_decimal, push_decimal_i64, push_str, spec_decimal, spec_decimal_int};
use types::{push_json_escaped, spec_json_escape, Update};
use vstd::prelude::*;

verus! {

pub const GET_UPDATES_LIMIT: u8 = 10;

pub const MIN_POLL_TIMEOUT_SEC: u32 = 1;

pub const MAX_POLL_TIMEOUT_SEC: u32 = 30;

/// The poll timeout clamped to 1..=30 seconds.
pub open spec fn clamp_timeout(t: u32) -> u32 {
    if t < MIN_POLL_TIMEOUT_SEC {
        MIN_POLL_TIMEOUT_SEC
    } else if t > MAX_POLL_TIMEOUT_SEC {
        MAX_POLL_TIMEOUT_SEC
    } else {
        t
    }
}

/// The `getUpdates` request body.
pub open spec fn spec_get_updates_body(since: i64, timeout_sec: u32) -> Seq<char> {
    "{\"offset\":"@ + spec_decimal_int(since as int) + ",\"timeout\":"@ + spec_decimal(
        clamp_timeout(timeout_sec) as nat,
    ) + ",\"limit\":10,\"allowed_updates\":[\"message\",\"callback_query\"]}"@
}

/// Build a bounded `getUpdates` request body for the embedded runtime.
pub fn build_get_updates_body(since: i64, timeout_sec: u32) -> (r: String)
    ensures
        r@ == spec_get_updates_body(since, timeout_sec),
{
    let timeout = if timeout_sec < MIN_POLL_TIMEOUT_SEC {
        MIN_POLL_TIMEOUT_SEC
    } else if timeout_sec > MAX_POLL_TIMEOUT_SEC {
        MAX_POLL_TIMEOUT_SEC
    } else {
        timeout_sec
    };
    let mut out = new_string();
    push_str(&mut out, "{\"offset\":");
    push_decimal_i64(&mut out, since);
    push_str(&mut out, ",\"timeout\":");
    push_decimal(&mut out, timeout as u64);
    push_str(&mut out, ",\"limit\":10,\"allowed_updates\":[\"message\",\"callback_query\"]}");
    assert(out@ =~= spec_get_updates_body(since, timeout_sec));
    out
}

/// JSON of one button.
pub open spec fn button_json(b: InlineKeyboardButton) -> Seq<char> {
    "{\"text\":\""@ + spec_json_escape(b.text@) + "\",\"callback_data\":\""@ + spec_json_escape(
        b.callback_data@,
    ) + "\"}"@
}

/// JSON of a row's buttons, comma-separated.
pub open spec fn buttons_json(bs: Seq<InlineKeyboardButton>) -> Seq<char>
    decreases bs.len(),
{
    if bs.len() == 0 {
        Seq::empty()
    } else if bs.len() == 1 {
        button_json(bs[0])
    } else {
        buttons_json(bs.drop_last()) + ","@ + button_json(bs.last())
    }
}

/// The rows that hold at least one button.
pub open spec fn nonempty_rows(rows: Seq<Vec<InlineKeyboardButton>>) -> Seq<Seq<InlineKeyboardButton>>
    decreases rows.len(),
{
    if rows.len() == 0 {
        Seq::empty()
    } else if rows.last()@.len() == 0 {
        nonempty_rows(rows.drop_last())
    } else {
        nonempty_rows(rows.drop_last()).push(rows.last()@)
    }
}

/// JSON of rows, each `[...]`, comma-separated.
pub open spec fn rows_json(rows: Seq<Seq<InlineKeyboardButton>>) -> Seq<char>
    decreases rows.len(),
{
    if rows.len() == 0 {
        Seq::empty()
    } else if rows.len() == 1 {
        "["@ + buttons_json(rows[0]) + "]"@
    } else {
        rows_json(rows.drop_last()) + ","@ + "["@ + buttons_json(rows.last()) + "]"@
    }
}

/// The `inline_keyboard` reply markup of a keyboard; empty rows are left out.
pub open spec fn keyboard_json(k: InlineKeyboard) -> Seq<char> {
    "{\"inline_keyboard\":["@ + rows_json(nonempty_rows(k.rows@)) + "]}"@
}

/// Whether a keyboard has no button.
pub open spec fn keyboard_empty(k: InlineKeyboard) -> bool {
    forall|i: int| 0 <= i < k.rows@.len() ==> (#[trigger] k.rows@[i])@.len() == 0
}

/// The `reply_markup` member, absent without a keyboard or with an empty one.
pub open spec fn reply_markup(keyboard: Option<&InlineKeyboard>) -> Seq<char> {
    match keyboard {
        None => Seq::empty(),
        Some(k) => if keyboard_empty(*k) {
            Seq::empty()
        } else {
            ",\"reply_markup\":"@ + keyboard_json(*k)
        },
    }
}

/// The `parse_mode` member, present for HTML.
pub open spec fn parse_mode(format: MessageFormat) -> Seq<char> {
    match format {
        MessageFormat::Plain => Seq::empty(),
        MessageFormat::Html => ",\"parse_mode\":\"HTML\""@,
    }
}

fn push_buttons_json(out: &mut String, row: &Vec<InlineKeyboardButton>)
    ensures
        final(out)@ == old(out)@ + buttons_json(row@),
{
    let ghost start = out@;
    let mut i: usize = 0;
    while i < row.len()
        invariant
            i <= row@.len(),
            out@ == start + buttons_json(row@.take(i as int)),
        decreases row@.len() - i,
    {
        let ghost before = out@;
        if i > 0 {
            push_str(out, ",");
        }
        push_str(out, "{\"text\":\"");
        push_json_escaped(out, row[i].text.as_str());
        push_str(out, "\",\"callback_data\":\"");
        push_json_escaped(out, row[i].callback_data.as_str());
        push_str(out, "\"}");
        i = i + 1;
        assert(row@.take(i as int).drop_last() =~= row@.take(i - 1));
        assert(row@.take(i as int).last() == row@[i - 1]);
        proof {
            if i == 1 {
                assert(row@.take(1)[0] == row@[0]);
            }
        }
        assert(out@ =~= start + buttons_json(row@.take(i as int)));
    }
    assert(row@.take(row@.len() as int) =~= row@);
}

fn inline_keyboard_json(keyboard: &InlineKeyboard) -> (r: String)
    ensures
        r@ == keyboard_json(*keyboard),
{
    let mut out = new_string();
    push_str(&mut out, "{\"inline_keyboard\":[");
    let ghost start = out@;
    let mut first = true;
    let mut i: usize = 0;
    while i < keyboard.rows.len()
        invariant
            i <= keyboard.rows@.len(),
            out@ == start + rows_json(nonempty_rows(keyboard.rows@.take(i as int))),
            first == (nonempty_rows(keyboard.rows@.take(i as int)).len() == 0),
        decreases keyboard.rows@.len() - i,
    {
        let ghost prev = nonempty_rows(keyboard.rows@.take(i as int));
        assert(keyboard.rows@.take(i + 1).drop_last() =~= keyboard.rows@.take(i as int));
        assert(keyboard.rows@.take(i + 1).last() == keyboard.rows@[i as int]);
        if keyboard.rows[i].len() > 0 {
            if !first {
                push_str(&mut out, ",");
            }
            push_str(&mut out, "[");
            push_buttons_json(&mut out, &keyboard.rows[i]);
            push_str(&mut out, "]");
            first = false;
            let ghost now = prev.push(keyboard.rows@[i as int]@);
            proof {
                if prev.len() == 0 {
                    assert(now.len() == 1);
                    assert(now[0] == keyboard.rows@[i as int]@);
                } else {
                    assert(now.drop_last() =~= prev);
                }
            }
            assert(out@ =~= start + rows_json(now));
        }
        i = i + 1;
    }
    assert(keyboard.rows@.take(keyboard.rows@.len() as int) =~= keyboard.rows@);
    push_str(&mut out, "]}");
    assert(out@ =~= keyboard_json(*keyboard));
    out
}

fn append_reply_markup(body: &mut String, keyboard: Option<&InlineKeyboard>)
    ensures
        final(body)@ == old(body)@ + reply_markup(keyboard),
{
    match keyboard {
        None => {
            assert(final(body)@ =~= old(body)@ + reply_markup(keyboard));
        },
        Some(k) => {
            if k.is_empty() {
                assert(body@ =~= old(body)@ + reply_markup(keyboard));
                return;
            }
            push_str(body, ",\"reply_markup\":");
            let j = inline_keyboard_json(k);
            push_str(body, j.as_str());
            assert(body@ =~= old(body)@ + reply_markup(keyboard));
        },
    }
}

fn append_parse_mode(body: &mut String, format: MessageFormat)
    ensures
        final(body)@ == old(body)@ + parse_mode(format),
{
    match format {
        MessageFormat::Plain => {
            assert(body@ =~= old(body)@ + parse_mode(format));
        },
        MessageFormat::Html => {
            push_str(body, ",\"parse_mode\":\"HTML\"");
        },
    }
}

/// The `sendMessage` request body.
pub open spec fn spec_send_message_body(chat_id: i64, text: Seq<char>, keyboard: Option<&InlineKeyboard>, format: MessageFormat) -> Seq<char> {
    "{\"chat_id\":"@ + spec_decimal_int(chat_id as int) + ",\"text\":\""@ + spec_json_escape(text) + "\""@
        + parse_mode(format) + reply_markup(keyboard) + "}"@
}

/// The `editMessageText` request body.
pub open spec fn spec_edit_message_text_body(
    chat_id: i64,
    message_id: MessageId,
    text: Seq<char>,
    keyboard: Option<&InlineKeyboard>,
    format: MessageFormat,
) -> Seq<char> {
    "{\"chat_id\":"@ + spec_decimal_int(chat_id as int) + ",\"message_id\":"@ + spec_decimal_int(
        message_id as int,
    ) + ",\"text\":\""@ + spec_json_escape(text) + "\""@ + parse_mode(format) + reply_markup(keyboard)
        + "}"@
}

/// A plain-text `sendMessage` body.
pub fn build_send_message_body(chat_id: i64, text: &str, keyboard: Option<&InlineKeyboard>) -> (r: String)
    ensures
        r@ == spec_send_message_body(chat_id, text@, keyboard, MessageFormat::Plain),
{
    build_send_message_body_with_format(chat_id, text, keyboard, MessageFormat::Plain)
}

/// A `sendMessage` body with the given text format.
pub fn build_send_message_body_with_format(
    chat_id: i64,
    text: &str,
    keyboard: Option<&InlineKeyboard>,
    format: MessageFormat,
) -> (r: String)
    ensures
        r@ == spec_send_message_body(chat_id, text@, keyboard, format),
{
    let mut body = new_string();
    push_str(&mut body, "{\"chat_id\":");
    push_decimal_i64(&mut body, chat_id);
    push_str(&mut body, ",\"text\":\"");
    push_json_escaped(&mut body, text);
    push_str(&mut body, "\"");
    append_parse_mode(&mut body, format);
    append_reply_markup(&mut body, keyboard);
    push_str(&mut body, "}");
    assert(body@ =~= spec_send_message_body(chat_id, text@, keyboard, format));
    body
}

/// A plain-text `editMessageText` body.
pub fn build_edit_message_text_body(
    chat_id: i64,
    message_id: MessageId,
    text: &str,
    keyboard: Option<&InlineKeyboard>,
) -> (r: String)
    ensures
        r@ == spec_edit_message_text_body(chat_id, message_id, text@, keyboard, MessageFormat::Plain),
{
    build_edit_message_text_body_with_format(chat_id, message_id, text, keyboard, MessageFormat::Plain)
}

/// An `editMessageText` body with the given text format.
pub fn build_edit_message_text_body_with_format(
    chat_id: i64,
    message_id: MessageId,
    text: &str,
    keyboard: Option<&InlineKeyboard>,
    format: MessageFormat,
) -> (r: String)
    ensures
        r@ == spec_edit_message_text_body(chat_id, message_id, text@, keyboard, format),
{
    let mut body = new_string();
    push_str(&mut body, "{\"chat_id\":");
    push_decimal_i64(&mut body, chat_id);
    push_str(&mut body, ",\"message_id\":");
    push_decimal_i64(&mut body, message_id);
    push_str(&mut body, ",\"text\":\"");
    push_json_escaped(&mut body, text);
    push_str(&mut body, "\"");
    append_parse_mode(&mut body, format);
    append_reply_markup(&mut body, keyboard);
    push_str(&mut body, "}");
    assert(body@ =~= spec_edit_message_text_body(chat_id, message_id, text@, keyboard, format));
    body
}

/// The `answerCallbackQuery` body, with the notification text when given.
pub fn build_answer_callback_query_body(callback_query_id: &str, text: Option<&str>) -> (r: String)
    ensures
        r@ == "{\"callback_query_id\":\""@ + spec_json_escape(callback_query_id@) + "\""@ + (match text {
            Some(t) => ",\"text\":\""@ + spec_json_escape(t@) + "\""@,
            None => Seq::empty(),
        }) + "}"@,
{
    let mut body = new_string();
    push_str(&mut body, "{\"callback_query_id\":\"");
    push_json_escaped(&mut body, callback_query_id);
    push_str(&mut body, "\"");
    match text {
        Some(t) => {
            push_str(&mut body, ",\"text\":\"");
            push_json_escaped(&mut body, t);
            push_str(&mut body, "\"");
        },
        None => {},
    }
    push_str(&mut body, "}");
    assert(body@ =~= "{\"callback_query_id\":\""@ + spec_json_escape(callback_query_id@) + "\""@ + (
    match text {
        Some(t) => ",\"text\":\""@ + spec_json_escape(t@) + "\""@,
        None => Seq::empty(),
    }) + "}"@);
    body
}

/// Build a `getFile` request body.
pub fn build_get_file_body(file_id: &str) -> (r: String)
    ensures
        r@ == "{\"file_id\":\""@ + spec_json_escape(file_id@) + "\"}"@,
{
    let mut body = new_string();
    push_str(&mut body, "{\"file_id\":\"");
    push_json_escaped(&mut body, file_id);
    push_str(&mut body, "\"}");
    assert(body@ =~= "{\"file_id\":\""@ + spec_json_escape(file_id@) + "\"}"@);
    body
}

/// JSON of one bot command; name and description are written as given.
pub open spec fn command_json(name: Seq<char>, desc: Seq<char>) -> Seq<char> {
    "{\"command\":\""@ + name + "\",\"description\":\""@ + desc + "\"}"@
}

/// JSON of the bot commands, comma-separated.
pub open spec fn commands_json(cs: Seq<(&str, &str)>) -> Seq<char>
    decreases cs.len(),
{
    if cs.len() == 0 {
        Seq::empty()
    } else if cs.len() == 1 {
        command_json(cs[0].0@, cs[0].1@)
    } else {
        commands_json(cs.drop_last()) + ","@ + command_json(cs.last().0@, cs.last().1@)
    }
}

/// The `setMyCommands` request body for (name, description) pairs.
pub fn build_set_my_commands_body(commands: &[(&str, &str)]) -> (r: String)
    ensures
        r@ == "{\"commands\":["@ + commands_json(commands@) + "]}"@,
{
    let mut body = new_string();
    push_str(&mut body, "{\"commands\":[");
    let ghost start = body@;
    let mut i: usize = 0;
    while i < commands.len()
        invariant
            i <= commands@.len(),
            body@ == start + commands_json(commands@.take(i as int)),
        decreases commands@.len() - i,
    {
        if i > 0 {
            push_str(&mut body, ",");
        }
        let (name, desc) = commands[i];
        push_str(&mut body, "{\"command\":\"");
        push_str(&mut body, name);
        push_str(&mut body, "\",\"description\":\"");
        push_str(&mut body, desc);
        push_str(&mut body, "\"}");
        i = i + 1;
        assert(commands@.take(i as int).drop_last() =~= commands@.take(i - 1));
        assert(commands@.take(i as int).last() == commands@[i - 1]);
        proof {
            if i == 1 {
                assert(commands@.take(1)[0] == commands@[0]);
            }
        }
        assert(body@ =~= start + commands_json(commands@.take(i as int)));
    }
    assert(commands@.take(commands@.len() as int) =~= commands@);
    push_str(&mut body, "]}");
    assert(body@ =~= "{\"commands\":["@ + commands_json(commands@) + "]}"@);
    body
}

/// Text of an optional string; empty when absent.
pub open spec fn opt_text(s: Option<String>) -> Seq<char> {
    match s {
        Some(t) => t@,
        None => Seq::empty(),
    }
}

fn take_text(s: Option<String>) -> (r: String)
    ensures
        r@ == opt_text(s),
{
    match s {
        Some(t) => t,
        None => new_string(),
    }
}

/// Convert a Telegram update into the backend-neutral inbound representation.
///
/// Updates from any chat other than `chat_id` are dropped, and so are button presses
/// without data and messages with neither text, caption nor document.
pub fn update_to_inbound_message(update: Update, chat_id: i64) -> (r: Option<InboundMessage>)
    requires
        update.update_id < i64::MAX,
    ensures
        match update.callback_query {
            Some(cb) => match cb.message {
                None => r is None,
                Some(m) => if m.chat.id != chat_id || opt_text(cb.data).len() == 0 {
                    r is None
                } else {
                    r is Some && r->0.cursor == update.update_id + 1 && r->0.text@ == opt_text(cb.data)
                        && r->0.reply_to is None && r->0.document is None && r->0.callback is Some
                        && r->0.callback->0.id@ == cb.id@ && r->0.callback->0.data@ == opt_text(cb.data)
                        && r->0.callback->0.message_id == m.message_id
                },
            },
            None => match update.message {
                None => r is None,
                Some(m) => {
                    let text = match m.text {
                        Some(t) => t@,
                        None => opt_text(m.caption),
                    };
                    if m.chat.id != chat_id || (text.len() == 0 && m.document is None) {
                        r is None
                    } else {
                        r is Some && r->0.cursor == update.update_id + 1 && r->0.text@ == text
                            && r->0.reply_to == (match m.reply_to_message {
                            Some(rt) => Some(rt.message_id),
                            None => None,
                        }) && r->0.callback is None && (match m.document {
                            None => r->0.document is None,
                            Some(d) => r->0.document is Some && r->0.document->0.file_id@ == d.file_id@
                                && r->0.document->0.file_unique_id@ == d.file_unique_id@
                                && r->0.document->0.file_name == d.file_name
                                && r->0.document->0.mime_type == d.mime_type
                                && r->0.document->0.file_size == d.file_size
                                && r->0.document->0.caption == m.caption,
                        })
                    }
                },
            },
        },
{
    let cursor = update.update_id + 1;
    match update.callback_query {
        Some(callback) => {
            let msg = match callback.message {
                Some(m) => m,
                None => return None,
            };
            if msg.chat.id != chat_id {
                return None;
            }
            let data = take_text(callback.data);
            if data.as_str().is_empty() {
                return None;
            }
            let text = data.clone();
            Some(InboundMessage {
                cursor,
                text,
                reply_to: None,
                document: None,
                callback: Some(InboundCallback { id: callback.id, data, message_id: msg.message_id }),
            })
        },
        None => {
            let msg = match update.message {
                Some(m) => m,
                None => return None,
            };
            if msg.chat.id != chat_id {
                return None;
            }
            let text = match msg.text {
                Some(t) => t,
                None => match &msg.caption {
                    Some(c) => c.clone(),
                    None => new_string(),
                },
            };
            let document = match msg.document {
                Some(doc) => Some(InboundDocument {
                    file_id: doc.file_id,
                    file_unique_id: doc.file_unique_id,
                    file_name: doc.file_name,
                    mime_type: doc.mime_type,
                    file_size: doc.file_size,
                    caption: msg.caption,
                }),
                None => None,
            };
            if text.as_str().is_empty() && document.is_none() {
                return None;
            }
            let reply_to = match msg.reply_to_message {
                Some(r) => Some(r.message_id),
                None => None,
            };
            Some(InboundMessage { cursor, text, reply_to, document, callback: None })
        },
    }
}

} // verus!
