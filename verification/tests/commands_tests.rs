use smsgate::commands::builtin::help::HelpCommand;
use smsgate::commands::builtin::log_cmd::{log_keyboard, parse_log_callback, parse_log_offset, LogCommand};
use smsgate::commands::builtin::pause::{pause_minutes, PauseCommand, ResumeCommand};
use smsgate::commands::builtin::restart::RestartCommand;
use smsgate::commands::builtin::send::{send_reply, SendCommand};
use smsgate::commands::builtin::status::{csq_to_dbm, StatusCommand};
use smsgate::commands::{
    decode_sentinel_body, push_encoded_sentinel_body, split_command_text, Command, CommandContext,
    CommandRegistry,
};
use smsgate::log_ring::{LogEntry, LogRing};
use smsgate::modem::ModemStatus;
use smsgate::persist::mem::MemStore;
use smsgate::persist::{keys, save_bool};
use smsgate::sms::sender::SmsSender;

fn registry() -> CommandRegistry<Box<dyn Command>> {
    let mut r: CommandRegistry<Box<dyn Command>> = CommandRegistry::new();
    r.register(Box::new(StatusCommand));
    r.register(Box::new(SendCommand));
    r.register(Box::new(LogCommand));
    r.register(Box::new(PauseCommand));
    r.register(Box::new(ResumeCommand));
    r.register(Box::new(RestartCommand));
    r
}

#[test]
fn sentinel_body_roundtrip() {
    let body = "line1\nline2\r\\end \\x";
    let mut enc = String::new();
    push_encoded_sentinel_body(&mut enc, body);
    assert_eq!(enc, "line1\\nline2\\r\\\\end \\\\x");
    assert!(!enc.contains('\n'));
    assert_eq!(decode_sentinel_body(&enc), body);
}

#[test]
fn sentinel_decode_keeps_unknown_escapes() {
    assert_eq!(decode_sentinel_body("a\\qb"), "a\\qb");
    assert_eq!(decode_sentinel_body("end\\"), "end\\");
}

#[test]
fn split_command_text_forms() {
    assert_eq!(split_command_text("/send +1 hello there"), ("send".to_string(), "+1 hello there".to_string()));
    assert_eq!(split_command_text("//help@mybot"), ("help".to_string(), String::new()));
    assert_eq!(split_command_text("/log   5  "), ("log".to_string(), "5".to_string()));
}

#[test]
fn registry_help_and_list() {
    let mut r: CommandRegistry<Box<dyn Command>> = CommandRegistry::new();
    r.register(Box::new(PauseCommand));
    r.register(Box::new(RestartCommand));
    assert_eq!(
        r.help_text(),
        "Commands:\n/pause — Pause SMS forwarding (default 60 min)\n/restart — Reboot the device\n"
    );
    assert_eq!(r.command_list(), vec![("pause", "Pause SMS forwarding (default 60 min)"), ("restart", "Reboot the device")]);
}

#[test]
fn registry_dispatch() {
    let r = registry();
    let store = MemStore::new();
    let status = ModemStatus::default();
    let q = SmsSender::new();
    let ctx = CommandContext {
        store: &store,
        modem_status: &status,
        send_queue: &q,
        uptime_ms: 0,
        free_heap_bytes: 0,
        min_free_heap_bytes: 0,
        wifi_info: "",
        build_commit: "abc",
    };
    let mut log = LogRing::new();
    assert_eq!(r.dispatch("/restart", &ctx, &mut log).as_deref(), Some("__RESTART__  \nRebooting…"));
    assert_eq!(r.dispatch("/pause@bot 15", &ctx, &mut log).as_deref(), Some("__PAUSE__:15  \nForwarding paused for 15 min."));
    assert_eq!(r.dispatch("/nope", &ctx, &mut log), None);
    assert_eq!(r.dispatch("/resume", &ctx, &mut log).as_deref(), Some("Forwarding is already active."));
}

#[test]
fn resume_when_paused() {
    let mut store = MemStore::new();
    save_bool(&mut store, keys::FWD_ENABLED, false).unwrap();
    let status = ModemStatus::default();
    let q = SmsSender::new();
    let ctx = CommandContext {
        store: &store,
        modem_status: &status,
        send_queue: &q,
        uptime_ms: 0,
        free_heap_bytes: 0,
        min_free_heap_bytes: 0,
        wifi_info: "",
        build_commit: "",
    };
    let mut log = LogRing::new();
    assert_eq!(ResumeCommand.handle("", &ctx, &mut log), "__RESUME__  \nForwarding resumed.");
}

#[test]
fn pause_minutes_default() {
    assert_eq!(pause_minutes(" 30 "), 30);
    assert_eq!(pause_minutes(""), 60);
    assert_eq!(pause_minutes("abc"), 60);
    assert_eq!(pause_minutes("99999999999"), 60);
}

#[test]
fn send_reply_validation() {
    assert_eq!(send_reply(""), "Usage: /send <number> <message text>");
    assert_eq!(send_reply("+1"), "Usage: /send <number> <message text>");
    assert_eq!(send_reply("abc hello"), "Invalid phone number");
    assert_eq!(send_reply(&format!("+1 {}", "a".repeat(2000))), "Message too long (> 10 SMS parts)");
}

#[test]
fn send_reply_sentinel() {
    assert_eq!(
        send_reply("+86 138 hello\nworld"),
        "__SEND__:+86|138 hello\\nworld\nQueued: +86 → \"138 hello world…\" (1 part(s))"
    );
    assert_eq!(
        send_reply("+8613800138000 hi"),
        "__SEND__:+8613800138000|hi\nQueued: +8613800138000 → \"hi…\" (1 part(s))"
    );
}

#[test]
fn status_report() {
    let store = MemStore::new();
    let status = ModemStatus { csq: 20, operator: "CMCC".to_string(), registered: true };
    let mut q = SmsSender::new();
    q.enqueue("+1".to_string(), "x".to_string());
    let ctx = CommandContext {
        store: &store,
        modem_status: &status,
        send_queue: &q,
        uptime_ms: 3_723_000,
        free_heap_bytes: 2048,
        min_free_heap_bytes: 0,
        wifi_info: "",
        build_commit: "deadbeef",
    };
    let mut log = LogRing::new();
    log.push(LogEntry::sms("+8613800138000".to_string(), "hi".to_string(), "2024-01-01".to_string(), true));
    let out = StatusCommand.handle("", &ctx, &mut log);
    assert!(out.contains("20/31 (-73 dBm)"));
    assert!(out.contains("CMCC"));
    assert!(out.ends_with("🔖 Build: deadbeef"));
    assert!(out.contains("+8613800138000 at 2024-01-01"));
    assert_eq!(csq_to_dbm(0), -113);
    assert_eq!(csq_to_dbm(31), -51);
}

#[test]
fn help_command_replies_with_its_text() {
    let store = MemStore::new();
    let status = ModemStatus::default();
    let q = SmsSender::new();
    let ctx = CommandContext {
        store: &store,
        modem_status: &status,
        send_queue: &q,
        uptime_ms: 0,
        free_heap_bytes: 0,
        min_free_heap_bytes: 0,
        wifi_info: "",
        build_commit: "",
    };
    let mut log = LogRing::new();
    let h = HelpCommand { help_text: "Commands:\n".to_string() };
    assert_eq!(h.handle("x", &ctx, &mut log), "Commands:\n");
    assert_eq!(h.name(), "help");
}

#[test]
fn log_offsets_and_callbacks() {
    assert_eq!(parse_log_offset(" 16 "), 16);
    assert_eq!(parse_log_offset("x"), 0);
    assert_eq!(parse_log_callback("log:32"), Some(32));
    assert_eq!(parse_log_callback("log: 32"), None);
    assert_eq!(parse_log_callback("other:1"), None);
}

#[test]
fn log_keyboard_buttons() {
    assert!(log_keyboard(0, 0, 0).is_none());
    let kb = log_keyboard(40, 16, 16).unwrap();
    assert_eq!(kb.rows.len(), 1);
    let row = &kb.rows[0];
    assert_eq!(row.len(), 2);
    assert_eq!((row[0].text.as_str(), row[0].callback_data.as_str()), ("Newer", "log:0"));
    assert_eq!((row[1].text.as_str(), row[1].callback_data.as_str()), ("Older", "log:32"));
    let only_older = log_keyboard(40, 0, 16).unwrap();
    assert_eq!(only_older.rows[0].len(), 1);
    assert_eq!(only_older.rows[0][0].callback_data, "log:16");
    let past_end = log_keyboard(40, 100, 0).unwrap();
    assert_eq!(past_end.rows[0][0].callback_data, "log:24");
}
