//! Telegram Bot API types and JSON string escaping.

use crate::im::MessageId;
use crate::sms::codec::{hex_digit_lower, hex_digit_lower_exec};
use crate::strutil::{new_string, push_char, str_to_chars};
use vstd::prelude::*;

verus! {

/// The JSON escape of one character: backslash, double quote and the ASCII control
/// characters are escaped.
pub open spec fn json_escape_char(c: char) -> Seq<char> {
    let v = c as u32;
    if c == '\\' {
        seq!['\\', '\\']
    } else if c == '"' {
        seq!['\\', '"']
    } else if c == '\n' {
        seq!['\\', 'n']
    } else if c == '\r' {
        seq!['\\', 'r']
    } else if c == '\t' {
        seq!['\\', 't']
    } else if v == 0x08 {
        seq!['\\', 'b']
    } else if v == 0x0C {
        seq!['\\', 'f']
    } else if v <= 0x1F {
        seq!['\\', 'u', '0', '0', hex_digit_lower((v >> 4) as u8), hex_digit_lower((v & 0x0F) as u8)]
    } else {
        seq![c]
    }
}

/// The JSON escape of a text, for use inside a JSON string literal.
pub open spec fn spec_json_escape(cs: Seq<char>) -> Seq<char>
    decreases cs.len(),
{
    if cs.len() == 0 {
        Seq::empty()
    } else {
        spec_json_escape(cs.drop_last()) + json_escape_char(cs.last())
    }
}

proof fn lemma_hex_digit_printable(n: u8)
    requires
        n < 16,
    ensures
        hex_digit_lower(n) as u32 >= 0x30,
{
}

proof fn lemma_escape_char_printable(c: char)
    ensures
        forall|j: int| 0 <= j < json_escape_char(c).len() ==> (#[trigger] json_escape_char(c)[j]) as u32 >= 0x20,
{
    let v = c as u32;
    if v <= 0x1F && c != '\\' && c != '"' && c != '\n' && c != '\r' && c != '\t' && v != 0x08 && v != 0x0C {
        assert((v >> 4) < 16) by (bit_vector)
            requires
                v <= 0x1F,
        ;
        assert((v & 0x0F) < 16) by (bit_vector);
        lemma_hex_digit_printable((v >> 4) as u8);
        lemma_hex_digit_printable((v & 0x0F) as u8);
    }
}

/// A JSON-escaped text holds no control character: each one is written as an escape
/// sequence made of printable characters.
pub proof fn lemma_json_escape_printable(cs: Seq<char>)
    ensures
        forall|i: int| 0 <= i < spec_json_escape(cs).len() ==> (#[trigger] spec_json_escape(cs)[i]) as u32 >= 0x20,
    decreases cs.len(),
{
    if cs.len() > 0 {
        lemma_json_escape_printable(cs.drop_last());
        lemma_escape_char_printable(cs.last());
        let a = spec_json_escape(cs.drop_last());
        let b = json_escape_char(cs.last());
        assert forall|i: int| 0 <= i < (a + b).len() implies (#[trigger] (a + b)[i]) as u32 >= 0x20 by {
            if i < a.len() {
                assert((a + b)[i] == a[i]);
            } else {
                assert((a + b)[i] == b[i - a.len()]);
            }
        }
    }
}

fn push_json_escaped_char(out: &mut String, ch: char)
    ensures
        final(out)@ == old(out)@ + json_escape_char(ch),
{
    let v = ch as u32;
    if ch == '\\' {
        push_char(out, '\\');
        push_char(out, '\\');
    } else if ch == '"' {
        push_char(out, '\\');
        push_char(out, '"');
    } else if ch == '\n' {
        push_char(out, '\\');
        push_char(out, 'n');
    } else if ch == '\r' {
        push_char(out, '\\');
        push_char(out, 'r');
    } else if ch == '\t' {
        push_char(out, '\\');
        push_char(out, 't');
    } else if v == 0x08 {
        push_char(out, '\\');
        push_char(out, 'b');
    } else if v == 0x0C {
        push_char(out, '\\');
        push_char(out, 'f');
    } else if v <= 0x1F {
        assert(((v >> 4) as u8) < 16 && ((v & 0x0F) as u8) < 16) by (bit_vector)
            requires
                v <= 0x1F,
        ;
        push_char(out, '\\');
        push_char(out, 'u');
        push_char(out, '0');
        push_char(out, '0');
        push_char(out, hex_digit_lower_exec((v >> 4) as u8));
        push_char(out, hex_digit_lower_exec((v & 0x0F) as u8));
    } else {
        push_char(out, ch);
    }
    assert(final(out)@ =~= old(out)@ + json_escape_char(ch));
}

/// Appends the JSON escape of `s`.
pub(crate) fn push_json_escaped(out: &mut String, s: &str)
    ensures
        final(out)@ == old(out)@ + spec_json_escape(s@),
{
    let cs = str_to_chars(s);
    let ghost start = out@;
    let mut i: usize = 0;
    while i < cs.len()
        invariant
            i <= cs@.len(),
            cs@ == s@,
            out@ == start + spec_json_escape(cs@.take(i as int)),
        decreases cs@.len() - i,
    {
        push_json_escaped_char(out, cs[i]);
        i = i + 1;
        assert(cs@.take(i as int).drop_last() =~= cs@.take(i - 1));
        assert(cs@.take(i as int).last() == cs@[i - 1]);
        assert(out@ =~= start + spec_json_escape(cs@.take(i as int)));
    }
    assert(cs@.take(cs@.len() as int) =~= cs@);
}

/// Escape a string for embedding inside a JSON string literal.
///
/// Handles the characters that would produce invalid JSON: backslash,
/// double-quote, and ASCII control characters.
pub fn json_escape(s: &str) -> (r: String)
    ensures
        r@ == spec_json_escape(s@),
{
    let mut out = new_string();
    push_json_escaped(&mut out, s);
    assert(out@ =~= spec_json_escape(s@));
    out
}

/// The envelope of every Bot API reply.
#[derive(Debug)]
pub struct ApiResult<T> {
    pub ok: bool,
    pub result: Option<T>,
    pub description: Option<String>,
    pub parameters: Option<ResponseParameters>,
}

/// Extra information about a failed request.
#[derive(Debug)]
pub struct ResponseParameters {
    pub retry_after: Option<u32>,
}

/// The result of `sendMessage`.
#[derive(Debug)]
pub struct SendMessageResult {
    pub message_id: MessageId,
}

/// One update from `getUpdates`.
#[derive(Debug)]
pub struct Update {
    pub update_id: i64,
    pub message: Option<Message>,
    pub callback_query: Option<CallbackQuery>,
}

/// A chat message.
#[derive(Debug)]
pub struct Message {
    pub message_id: MessageId,
    pub text: Option<String>,
    pub caption: Option<String>,
    pub document: Option<Document>,
    pub reply_to_message: Option<ReplyToMessage>,
    pub chat: Chat,
}

/// A file attached to a message.
#[derive(Debug)]
pub struct Document {
    pub file_id: String,
    pub file_unique_id: String,
    pub file_name: Option<String>,
    pub mime_type: Option<String>,
    pub file_size: Option<u64>,
}

/// The message that a message replies to.
#[derive(Debug)]
pub struct ReplyToMessage {
    pub message_id: MessageId,
}

/// A press of an inline keyboard button.
#[derive(Debug)]
pub struct CallbackQuery {
    pub id: String,
    pub data: Option<String>,
    pub message: Option<Message>,
}

/// The chat of a message.
#[derive(Debug)]
pub struct Chat {
    pub id: i64,
}

/// The result of `getFile`.
#[derive(Debug)]
pub struct TelegramFile {
    pub file_id: String,
    pub file_unique_id: String,
    pub file_size: Option<u64>,
    pub file_path: Option<String>,
}

} // verus!
