//! IM backend abstraction.
//!
//! Two orthogonal traits:
//! - `MessageSink`   — outbound delivery (SMS -> Telegram)
//! - `MessageSource` — inbound command polling
//!
//! The `Messenger` trait is a convenience super-trait for backends that implement both.

pub mod telegram;

use crate::strutil::{new_string, push_str, to_owned_string};
use vstd::prelude::*;

verus! {

/// Opaque handle to a previously sent IM message.
pub type MessageId = i64;

/// How the backend renders message text.
#[derive(Debug, Clone, Copy, PartialEq, Eq, Structural)]
pub enum MessageFormat {
    Plain,
    Html,
}

/// One inline keyboard button: its label and the data sent back when pressed.
#[derive(Debug, Clone, PartialEq, Eq)]
pub struct InlineKeyboardButton {
    pub text: String,
    pub callback_data: String,
}

impl InlineKeyboardButton {
    /// A button with the given label and callback data.
    pub fn new(text: &str, callback_data: &str) -> (r: Self)
        ensures
            r.text@ == text@,
            r.callback_data@ == callback_data@,
    {
        InlineKeyboardButton { text: to_owned_string(text), callback_data: to_owned_string(callback_data) }
    }
}

/// An inline keyboard: rows of buttons.
#[derive(Debug, Clone, PartialEq, Eq)]
pub struct InlineKeyboard {
    pub rows: Vec<Vec<InlineKeyboardButton>>,
}

impl InlineKeyboard {
    /// One row holding `buttons`; no row at all when there are no buttons.
    pub fn single_row(buttons: Vec<InlineKeyboardButton>) -> (r: Self)
        ensures
            buttons@.len() == 0 ==> r.rows@.len() == 0,
            buttons@.len() > 0 ==> r.rows@.len() == 1 && r.rows@[0]@ == buttons@,
    {
        if buttons.len() == 0 {
            InlineKeyboard { rows: Vec::new() }
        } else {
            let mut rows: Vec<Vec<InlineKeyboardButton>> = Vec::new();
            rows.push(buttons);
            InlineKeyboard { rows }
        }
    }

    /// Whether no row holds a button.
    pub fn is_empty(&self) -> (r: bool)
        ensures
            r == (forall|i: int| 0 <= i < self.rows@.len() ==> (#[trigger] self.rows@[i])@.len() == 0),
    {
        let mut i: usize = 0;
        while i < self.rows.len()
            invariant
                i <= self.rows@.len(),
                forall|k: int| 0 <= k < i ==> (#[trigger] self.rows@[k])@.len() == 0,
            decreases self.rows@.len() - i,
        {
            if self.rows[i].len() != 0 {
                return false;
            }
            i = i + 1;
        }
        true
    }
}

/// A callback query received from an inline keyboard button.
#[derive(Debug, Clone, PartialEq, Eq)]
pub struct InboundCallback {
    pub id: String,
    pub data: String,
    pub message_id: MessageId,
}

/// A message received from the IM backend.
#[derive(Debug, Clone)]
pub struct InboundMessage {
    /// Monotonically increasing cursor; pass as `since` on the next poll.
    pub cursor: i64,
    /// Message text (starts with "/" for commands).
    pub text: String,
    /// If this is a reply to a previously sent message, its ID.
    pub reply_to: Option<MessageId>,
    /// Attached document metadata, if the IM backend delivered a file.
    pub document: Option<InboundDocument>,
    /// Inline keyboard callback metadata, if this update came from a button.
    pub callback: Option<InboundCallback>,
}

/// A document received from the IM backend.
#[derive(Debug, Clone)]
pub struct InboundDocument {
    /// Backend-specific file identifier used to request a temporary download URL.
    pub file_id: String,
    /// Stable backend-specific file identifier; not usable for download.
    pub file_unique_id: String,
    /// Original file name, when supplied by the sender.
    pub file_name: Option<String>,
    /// MIME type, when supplied by the sender.
    pub mime_type: Option<String>,
    /// File size in bytes, when supplied by the backend.
    pub file_size: Option<u64>,
    /// Caption sent with the document, when supplied.
    pub caption: Option<String>,
}

/// Errors from the IM layer.
#[derive(Debug)]
pub enum MessengerError {
    Http(String),
    Json(String),
    Api(String),
    Disconnected,
}

impl MessengerError {
    /// The text shown for the error.
    pub fn message(&self) -> (r: String)
        ensures
            r@ == (match self {
                MessengerError::Http(e) => "HTTP error: "@ + e@,
                MessengerError::Json(e) => "JSON parse error: "@ + e@,
                MessengerError::Api(e) => "API error: "@ + e@,
                MessengerError::Disconnected => "not connected"@,
            }),
    {
        let mut out = new_string();
        match self {
            MessengerError::Http(e) => {
                push_str(&mut out, "HTTP error: ");
                push_str(&mut out, e.as_str());
            },
            MessengerError::Json(e) => {
                push_str(&mut out, "JSON parse error: ");
                push_str(&mut out, e.as_str());
            },
            MessengerError::Api(e) => {
                push_str(&mut out, "API error: ");
                push_str(&mut out, e.as_str());
            },
            MessengerError::Disconnected => {
                push_str(&mut out, "not connected");
            },
        }
        out
    }
}

/// Outbound delivery target. Delivery depends on an outside service, so nothing is
/// promised of the outcome; what is promised is that a text reported as sent is the
/// text that was handed over, which the bridge's contracts speak of through
/// `delivered`.
pub trait MessageSink {
    /// The texts accepted for delivery so far, oldest first: the model the contracts
    /// speak of, kept by every sink for which `obeys_model` holds.
    closed spec fn delivered(&self) -> Seq<Seq<char>> {
        Seq::empty()
    }

    /// Whether the sink keeps the model `delivered` (true of the recorders in memory). A
    /// sink that leaves it at its default, false, is promised nothing about what it
    /// delivered.
    closed spec fn obeys_model(&self) -> bool {
        false
    }

    /// The format each text in `delivered` was handed over with, oldest first, kept
    /// beside `delivered` by every sink for which `obeys_model` holds.
    closed spec fn formats(&self) -> Seq<MessageFormat> {
        Seq::empty()
    }

    /// Whether every delivery succeeds (true of the recorder in memory). A sink that
    /// leaves it at its default, false, is promised nothing about its sends.
    closed spec fn never_fails(&self) -> bool {
        false
    }

    /// Deliver a text notification. Returns a backend-specific message ID
    /// (0 if the backend doesn't track IDs).
    fn send_message(&mut self, text: &str) -> (r: Result<MessageId, MessengerError>)
        ensures
            final(self).never_fails() == old(self).never_fails(),
            final(self).obeys_model() == old(self).obeys_model(),
            old(self).never_fails() ==> r is Ok,
            old(self).obeys_model() && r is Ok ==> final(self).delivered() == old(self).delivered().push(text@),
            old(self).obeys_model() && r is Err ==> final(self).delivered() == old(self).delivered(),
            old(self).obeys_model() && r is Ok ==> final(self).formats() == old(self).formats().push(MessageFormat::Plain),
            old(self).obeys_model() && r is Err ==> final(self).formats() == old(self).formats(),
    ;

    /// Deliver a text notification with an explicit backend text format.
    /// Every sink gives its own body: the format is part of what is delivered.
    fn send_message_with_format(&mut self, text: &str, format: MessageFormat) -> (r: Result<MessageId, MessengerError>)
        ensures
            final(self).never_fails() == old(self).never_fails(),
            final(self).obeys_model() == old(self).obeys_model(),
            old(self).never_fails() ==> r is Ok,
            old(self).obeys_model() && r is Ok ==> final(self).delivered() == old(self).delivered().push(text@),
            old(self).obeys_model() && r is Err ==> final(self).delivered() == old(self).delivered(),
            old(self).obeys_model() && r is Ok ==> final(self).formats() == old(self).formats().push(format),
            old(self).obeys_model() && r is Err ==> final(self).formats() == old(self).formats(),
    ;

    /// Deliver a text notification with inline keyboard markup.
    fn send_message_with_keyboard(&mut self, text: &str, keyboard: &InlineKeyboard) -> (r: Result<MessageId, MessengerError>)
        ensures
            final(self).never_fails() == old(self).never_fails(),
            final(self).obeys_model() == old(self).obeys_model(),
            old(self).never_fails() ==> r is Ok,
            old(self).obeys_model() && r is Ok ==> final(self).delivered() == old(self).delivered().push(text@),
            old(self).obeys_model() && r is Err ==> final(self).delivered() == old(self).delivered(),
            old(self).obeys_model() && r is Ok ==> final(self).formats() == old(self).formats().push(MessageFormat::Plain),
            old(self).obeys_model() && r is Err ==> final(self).formats() == old(self).formats(),
    {
        self.send_message(text)
    }

    /// Deliver a formatted text notification with inline keyboard markup.
    fn send_message_with_keyboard_and_format(
        &mut self,
        text: &str,
        keyboard: &InlineKeyboard,
        format: MessageFormat,
    ) -> (r: Result<MessageId, MessengerError>)
        ensures
            final(self).never_fails() == old(self).never_fails(),
            final(self).obeys_model() == old(self).obeys_model(),
            old(self).never_fails() ==> r is Ok,
            old(self).obeys_model() && r is Ok ==> final(self).delivered() == old(self).delivered().push(text@),
            old(self).obeys_model() && r is Err ==> final(self).delivered() == old(self).delivered(),
            old(self).obeys_model() && r is Ok ==> final(self).formats() == old(self).formats().push(format),
            old(self).obeys_model() && r is Err ==> final(self).formats() == old(self).formats(),
    ;

    /// Edit a previously delivered text notification when the backend supports it.
    fn edit_message(&mut self, message_id: MessageId, text: &str) -> (r: Result<(), MessengerError>)
        ensures
            final(self).never_fails() == old(self).never_fails(),
            final(self).obeys_model() == old(self).obeys_model(),
        default_ensures
            old(self).never_fails() ==> r is Ok,
            old(self).obeys_model() && r is Ok ==> final(self).delivered() == old(self).delivered().push(text@),
            old(self).obeys_model() && r is Err ==> final(self).delivered() == old(self).delivered(),
            old(self).obeys_model() && r is Ok ==> final(self).formats() == old(self).formats().push(MessageFormat::Plain),
            old(self).obeys_model() && r is Err ==> final(self).formats() == old(self).formats(),
    {
        match self.send_message(text) {
            Ok(_) => Ok(()),
            Err(e) => Err(e),
        }
    }

    /// Edit a message with an explicit backend text format.
    fn edit_message_with_format(&mut self, message_id: MessageId, text: &str, format: MessageFormat) -> (r: Result<(), MessengerError>)
        ensures
            final(self).never_fails() == old(self).never_fails(),
            final(self).obeys_model() == old(self).obeys_model(),
    {
        self.edit_message(message_id, text)
    }

    /// Edit a message and replace its inline keyboard markup.
    fn edit_message_with_keyboard(
        &mut self,
        message_id: MessageId,
        text: &str,
        keyboard: &InlineKeyboard,
    ) -> (r: Result<(), MessengerError>)
        ensures
            final(self).never_fails() == old(self).never_fails(),
            final(self).obeys_model() == old(self).obeys_model(),
    {
        self.edit_message(message_id, text)
    }

    /// Edit a formatted message and replace its inline keyboard markup.
    fn edit_message_with_keyboard_and_format(
        &mut self,
        message_id: MessageId,
        text: &str,
        keyboard: &InlineKeyboard,
        format: MessageFormat,
    ) -> (r: Result<(), MessengerError>)
        ensures
            final(self).never_fails() == old(self).never_fails(),
            final(self).obeys_model() == old(self).obeys_model(),
    {
        self.edit_message_with_keyboard(message_id, text, keyboard)
    }

    /// Acknowledge an inline keyboard callback query.
    fn answer_callback_query(&mut self, callback_query_id: &str, text: Option<&str>) -> (r: Result<(), MessengerError>)
        ensures
            final(self).never_fails() == old(self).never_fails(),
            final(self).obeys_model() == old(self).obeys_model(),
            old(self).obeys_model() ==> final(self).delivered() == old(self).delivered(),
            old(self).obeys_model() ==> final(self).formats() == old(self).formats(),
    {
        Ok(())
    }
}

/// Inbound command source.
pub trait MessageSource {
    /// Poll for new messages. `since` = cursor from last poll (0 on first call).
    fn poll(&mut self, since: i64, timeout_sec: u32) -> Result<Vec<InboundMessage>, MessengerError>;
}

/// Full bidirectional backend (sink + source).
pub trait Messenger: MessageSink + MessageSource {

}

impl<T: MessageSink + MessageSource> Messenger for T {

}

} // verus!
