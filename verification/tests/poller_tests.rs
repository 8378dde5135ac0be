use smsgate::bridge::forwarder::{is_blocked, load_blocklist};
use smsgate::bridge::poller::{apply_sentinels, poll_and_dispatch, split_command, str_lines};
use smsgate::bridge::reply_router::ReplyRouter;
use smsgate::commands::builtin::log_cmd::LogCommand;
use smsgate::commands::builtin::block::{BlockCommand, UnblockCommand};
use smsgate::commands::builtin::pause::{PauseCommand, ResumeCommand};
use smsgate::commands::builtin::restart::RestartCommand;
use smsgate::commands::builtin::send::SendCommand;
use smsgate::commands::{push_encoded_sentinel_body, Command, CommandRegistry};
use smsgate::im::{InboundCallback, InboundMessage};
use smsgate::log_ring::{LogEntry, LogRing};
use smsgate::modem::ModemStatus;
use smsgate::persist::mem::MemStore;
use smsgate::persist::{keys, load_bool, Store};
use smsgate::sms::sender::SmsSender;
use smsgate::sms::CmdSendResult;
use smsgate::testing::mocks::RecordingMessenger;

fn items(q: &SmsSender) -> Vec<(String, String)> {
    let mut out = Vec::new();
    let mut i = 0;
    while let Some((p, b)) = q.message_at(i) {
        out.push((p.to_string(), b.to_string()));
        i += 1;
    }
    out
}

fn msg(text: &str) -> InboundMessage {
    InboundMessage { cursor: 1, text: text.to_string(), reply_to: None, document: None, callback: None }
}

#[test]
fn str_lines_like_std() {
    assert_eq!(str_lines("a\r\nb\n\nc"), vec!["a", "b", "", "c"]);
    assert_eq!(str_lines("a\n"), vec!["a"]);
    assert!(str_lines("").is_empty());
    assert_eq!(str_lines("x\r"), vec!["x\r"]);
}

#[test]
fn split_command_forms() {
    assert_eq!(split_command("/log 5"), Some(("log".to_string(), "5".to_string())));
    assert_eq!(split_command("/log@bot"), Some(("log".to_string(), String::new())));
    assert_eq!(split_command("log"), None);
}

#[test]
fn sentinels_are_applied_and_stripped() {
    let mut q = SmsSender::new();
    let mut store = MemStore::new();
    let reply = "__SEND__:+111|a\\nb\nQueued\n__BLOCK__:+222\n__PAUSE__:15\n__RESTART__";
    let (text, restart, pause, events) = apply_sentinels(reply, &mut q, &mut store);
    assert_eq!(text, "Queued");
    assert!(restart);
    assert_eq!(pause, Some(15));
    assert_eq!(items(&q), vec![("+111".to_string(), "a\nb".to_string())]);
    assert!(is_blocked("+222", &store));
    assert_eq!(load_bool(&store, keys::FWD_ENABLED), Some(false));
    assert_eq!(events.len(), 4);
    assert_eq!(events[0].body_preview, "queued SMS to +111: a\nb");
    assert_eq!(events[2].body_preview, "paused forwarding for 15 min");
}

#[test]
fn rate_limited_send_is_reported() {
    let mut q = SmsSender::new();
    for _ in 0..5 {
        assert!(matches!(q.enqueue_command_send("+2".to_string(), "y".to_string()), CmdSendResult::Enqueued(_)));
    }
    let mut store = MemStore::new();
    let (text, restart, pause, events) = apply_sentinels("__SEND__:+1|x", &mut q, &mut store);
    assert_eq!(text, "Rate limit: at most 5 /send commands per minute.");
    assert!(!restart);
    assert_eq!(pause, None);
    assert!(!events[0].forwarded);
}

#[test]
fn send_body_with_backslash_n_survives_the_poller() {
    let mut q = SmsSender::new();
    let mut store = MemStore::new();
    let _ = apply_sentinels("__SEND__:+1|a\\\\nb", &mut q, &mut store);
    assert_eq!(items(&q)[0].1, "a\\nb");
}

#[test]
fn send_body_without_backslash_survives() {
    let body = "line one\nline two\r\nthe end";
    let mut line = String::from("__SEND__:+15551234|");
    push_encoded_sentinel_body(&mut line, body);
    assert!(!line.contains('\n'));
    let mut q = SmsSender::new();
    let mut store = MemStore::new();
    let _ = apply_sentinels(&line, &mut q, &mut store);
    assert_eq!(items(&q), vec![("+15551234".to_string(), body.to_string())]);
}

#[test]
fn send_command_queues_the_requested_sms() {
    let router = ReplyRouter::new();
    let mut store = MemStore::new();
    let mut q = SmsSender::new();
    let mut m = RecordingMessenger::new();
    let mut log = LogRing::new();
    let reg = registry();
    let out = poll_and_dispatch(
        &[msg("/send 0086-138-0013-8000  see you\rat 5 ")],
        &mut m,
        &mut q,
        &router,
        &reg,
        &mut store,
        &mut log,
        &ModemStatus::default(),
        0,
        0,
        "",
        "",
    )
    .unwrap();
    assert_eq!(items(&q), vec![("+8613800138000".to_string(), "see you\rat 5".to_string())]);
    assert_eq!(out.events.len(), 1);
    assert!(out.events[0].forwarded);
    assert_eq!(m.sent_count(), 1);
    assert!(m.last_sent().unwrap().starts_with("Queued: +8613800138000"));
}

#[test]
fn reply_to_forwarded_sms_is_queued_to_sender() {
    let mut router = ReplyRouter::new();
    let mut store = MemStore::new();
    router.put(4242, "+8613800138000", &mut store);
    let mut q = SmsSender::new();
    let mut m = RecordingMessenger::new();
    let mut log = LogRing::new();
    let reg = registry();
    let mut reply = msg("  on my way  ");
    reply.reply_to = Some(4242);
    let out = poll_and_dispatch(&[reply], &mut m, &mut q, &router, &reg, &mut store, &mut log, &ModemStatus::default(), 0, 0, "", "")
        .unwrap();
    assert_eq!(items(&q), vec![("+8613800138000".to_string(), "on my way".to_string())]);
    assert_eq!(out.events.len(), 1);
    assert_eq!(out.events[0].body_preview, "queued SMS reply to +8613800138000");
    assert_eq!(m.sent_count(), 0);
}

#[test]
fn resume_and_unblock_sentinels() {
    let mut q = SmsSender::new();
    let mut store = MemStore::new();
    let _ = apply_sentinels("__BLOCK__:+9\n__PAUSE__:5", &mut q, &mut store);
    let (text, _, pause, events) = apply_sentinels("__UNBLOCK__:+9\n__RESUME__\nok", &mut q, &mut store);
    assert_eq!(text, "ok");
    assert_eq!(pause, None);
    assert!(!is_blocked("+9", &store));
    assert_eq!(load_bool(&store, keys::FWD_ENABLED), Some(true));
    assert!(events.iter().all(|e| e.forwarded));
}

fn registry() -> CommandRegistry<Box<dyn Command>> {
    let mut r: CommandRegistry<Box<dyn Command>> = CommandRegistry::new();
    r.register(Box::new(SendCommand));
    r.register(Box::new(LogCommand));
    r.register(Box::new(PauseCommand));
    r.register(Box::new(RestartCommand));
    r
}

#[test]
fn dispatch_command_and_reply_routing() {
    let mut m = RecordingMessenger::new();
    let mut q = SmsSender::new();
    let mut store = MemStore::new();
    let mut router = ReplyRouter::new();
    router.put(77, "+8613800138000", &mut store);
    let mut log = LogRing::new();
    let status = ModemStatus::default();
    let reg = registry();
    let mut reply = msg("thanks");
    reply.reply_to = Some(77);
    let messages = vec![msg("/send +1 hi"), reply, msg("/restart"), msg("chatter")];
    let out = poll_and_dispatch(&messages, &mut m, &mut q, &router, &reg, &mut store, &mut log, &status, 0, 0, "", "b")
        .unwrap();
    assert!(out.restart_requested);
    assert_eq!(out.pause_mins, None);
    assert_eq!(
        items(&q),
        vec![("+1".to_string(), "hi".to_string()), ("+8613800138000".to_string(), "thanks".to_string())]
    );
    assert_eq!(m.sent_count(), 2);
    assert_eq!(m.last_sent(), Some("Rebooting…"));
    assert_eq!(out.events.len(), 3);
}

#[test]
fn plain_messages_change_nothing() {
    let mut m = RecordingMessenger::new();
    let mut q = SmsSender::new();
    let mut store = MemStore::new();
    let router = ReplyRouter::new();
    let mut log = LogRing::new();
    let status = ModemStatus::default();
    let reg = registry();
    let out = poll_and_dispatch(&[msg("hello"), msg(" hi ")], &mut m, &mut q, &router, &reg, &mut store, &mut log, &status, 0, 0, "", "")
        .unwrap();
    assert!(!out.restart_requested);
    assert_eq!(out.pause_mins, None);
    assert!(out.events.is_empty());
    assert_eq!(m.sent_count(), 0);
    assert!(store.load(keys::FWD_ENABLED).is_none());
}

#[test]
fn log_command_and_callback() {
    let mut m = RecordingMessenger::new();
    let mut q = SmsSender::new();
    let mut store = MemStore::new();
    let router = ReplyRouter::new();
    let mut log = LogRing::new();
    for i in 0..20 {
        log.push(LogEntry::sms(format!("+{}", i), "b<&>".to_string(), "t".to_string(), true));
    }
    let status = ModemStatus::default();
    let reg = registry();
    let mut cb = msg("");
    cb.callback = Some(InboundCallback { id: "cb1".to_string(), data: "log:16".to_string(), message_id: 5 });
    let out = poll_and_dispatch(&[msg("/log"), cb], &mut m, &mut q, &router, &reg, &mut store, &mut log, &status, 0, 0, "", "")
        .unwrap();
    assert!(!out.restart_requested);
    assert_eq!(m.sent_count(), 1);
    let first = m.last_sent().unwrap();
    assert!(first.starts_with("Log page: 16 entries, total 20, offset 0.\n"));
    assert!(first.contains("<blockquote><b>t</b> SMS - +19: b&lt;&amp;&gt;</blockquote>\n"));
    let kb = m.last_sent_keyboard().unwrap();
    assert_eq!(kb.rows[0][0].callback_data, "log:16");
    assert_eq!(m.edited_count(), 1);
    let edited = m.last_edited().unwrap();
    assert_eq!(edited.id, 5);
    assert!(edited.text.starts_with("Log page: 4 entries, total 20, offset 16.\n"));
    assert_eq!(m.answered_callback_count(), 1);
}

#[test]
fn block_pause_resume_batch_updates_store_and_sends_clean_replies() {
    let mut m = RecordingMessenger::new();
    let mut q = SmsSender::new();
    let mut store = MemStore::new();
    let router = ReplyRouter::new();
    let mut log = LogRing::new();
    let status = ModemStatus::default();
    let mut reg: CommandRegistry<Box<dyn Command>> = CommandRegistry::new();
    reg.register(Box::new(BlockCommand));
    reg.register(Box::new(PauseCommand));
    reg.register(Box::new(ResumeCommand));
    let messages = vec![msg("/block +1555"), msg("/pause 5"), msg("/resume")];
    let out = poll_and_dispatch(&messages, &mut m, &mut q, &router, &reg, &mut store, &mut log, &status, 0, 0, "", "")
        .unwrap();
    assert!(is_blocked("+1555", &store));
    assert_eq!(out.pause_mins, Some(5));
    assert!(!out.restart_requested);
    // /resume ran while the flag was off, so it answered with its sentinel and turned it on.
    assert_eq!(load_bool(&store, keys::FWD_ENABLED), Some(true));
    assert_eq!(m.sent_count(), 3);
    assert_eq!(m.last_sent(), Some("Forwarding resumed."));
    assert_eq!(out.events.len(), 3);
}

#[test]
fn block_then_unblock_in_one_batch() {
    let mut m = RecordingMessenger::new();
    let mut q = SmsSender::new();
    let mut store = MemStore::new();
    let router = ReplyRouter::new();
    let mut log = LogRing::new();
    let status = ModemStatus::default();
    let mut reg: CommandRegistry<Box<dyn Command>> = CommandRegistry::new();
    reg.register(Box::new(BlockCommand));
    reg.register(Box::new(UnblockCommand));
    let messages = vec![msg("/block +1555"), msg("/block +1666"), msg("/unblock +1555")];
    let out = poll_and_dispatch(&messages, &mut m, &mut q, &router, &reg, &mut store, &mut log, &status, 0, 0, "", "")
        .unwrap();
    assert!(!is_blocked("+1555", &store));
    assert!(is_blocked("+1666", &store));
    assert_eq!(load_blocklist(&store), vec!["+1666".to_string()]);
    assert_eq!(out.events.len(), 3);
    assert!(out.events.iter().all(|e| e.forwarded));
}

#[test]
fn send_command_queues_its_sms_with_room() {
    let mut m = RecordingMessenger::new();
    let mut q = SmsSender::new();
    let mut store = MemStore::new();
    let router = ReplyRouter::new();
    let mut log = LogRing::new();
    let status = ModemStatus::default();
    let reg = registry();
    let out = poll_and_dispatch(&[msg("/send +123 two\\nlines")], &mut m, &mut q, &router, &reg, &mut store, &mut log, &status, 0, 0, "", "")
        .unwrap();
    assert_eq!(items(&q), vec![("+123".to_string(), "two\\nlines".to_string())]);
    assert_eq!(m.sent_count(), 1);
    assert!(m.last_sent().unwrap().starts_with("Queued: +123"));
    assert!(!m.last_sent().unwrap().contains("__SEND__"));
    assert_eq!(out.events.len(), 1);
}
