use smsgate::commands::builtin::restart::RestartCommand;
use smsgate::commands::builtin::send::send_reply;
use smsgate::commands::{Command, CommandContext, CommandRegistry};
use smsgate::log_ring::LogRing;
use smsgate::modem::ModemStatus;
use smsgate::ota::{ota_gate, ota_notify, OtaGate};
use smsgate::persist::mem::MemStore;
use smsgate::sms::codec::{build_sms_submit_pdus, count_sms_parts};
use smsgate::sms::sender::{DrainOutcome, SmsSender};
use smsgate::sms::CmdSendResult;
use smsgate::testing::mocks::{RecordingMessenger, ScriptedModem};

#[test]
fn queue_refuses_a_ninth_message() {
    let mut q = SmsSender::new();
    for i in 0..8 {
        assert_eq!(q.enqueue(format!("+{}", i), "x".to_string()), Some(i + 1));
    }
    assert_eq!(q.enqueue("+9".to_string(), "x".to_string()), None);
    assert_eq!(q.len(), 8);
}

#[test]
fn sixth_send_command_within_a_minute_is_rate_limited() {
    let mut q = SmsSender::new();
    for i in 0..5u64 {
        assert_eq!(
            q.enqueue_command_send_at("+1".to_string(), "x".to_string(), 1000 + i),
            CmdSendResult::Enqueued(i as u32 + 1)
        );
    }
    assert_eq!(q.enqueue_command_send_at("+1".to_string(), "x".to_string(), 59_999), CmdSendResult::RateLimited);
    assert_eq!(q.len(), 5);
    assert_eq!(q.enqueue_command_send_at("+1".to_string(), "x".to_string(), 61_000), CmdSendResult::Enqueued(6));
}

#[test]
fn drain_sends_the_first_message_as_pdus() {
    let mut q = SmsSender::new();
    q.enqueue("+8613800138000".to_string(), "hello".to_string());
    let mut modem = ScriptedModem::new();
    match q.drain_at(&mut modem, 0) {
        DrainOutcome::Sent { phone } => assert_eq!(phone, "+8613800138000"),
        other => panic!("unexpected {:?}", other),
    }
    assert_eq!(modem.sent_pdu_count(), 1);
    assert_eq!(q.len(), 0);
    assert!(!q.drain_at(&mut modem, 0).attempted());
}

#[test]
fn an_unencodable_message_is_dropped() {
    let mut q = SmsSender::new();
    q.enqueue(String::new(), "hello".to_string());
    let mut modem = ScriptedModem::new();
    match q.drain_at(&mut modem, 0) {
        DrainOutcome::Dropped { phone } => assert_eq!(phone, ""),
        other => panic!("unexpected {:?}", other),
    }
    assert_eq!(modem.sent_pdu_count(), 0);
}

#[test]
fn no_parts_allowed_gives_no_pdus() {
    assert!(build_sms_submit_pdus("+1", "A", 0, false, 0).is_empty());
    assert_eq!(build_sms_submit_pdus("+1", "A", 1, false, 0).len(), 1);
    assert_eq!(count_sms_parts("A", 0), 0);
}

#[test]
fn send_preview_stays_on_one_line() {
    let r = send_reply("+1 hi\n__RESTART__");
    assert_eq!(r.lines().count(), 2);
    assert!(r.lines().nth(1).unwrap().starts_with("Queued: +1"));
    assert_eq!(r.lines().filter(|l| l.starts_with("__")).count(), 1);
}

#[test]
fn ota_gate_refuses_cellular_and_ignores_other_captions() {
    let mut m = RecordingMessenger::new();
    let mut log = LogRing::new();
    assert_eq!(ota_gate("hello", true, &mut m, &mut log, "t"), OtaGate::Ignore);
    assert_eq!(m.sent_count(), 0);
    assert_eq!(ota_gate("/ota", false, &mut m, &mut log, "t"), OtaGate::Proceed);
    assert_eq!(log.len(), 0);
    assert_eq!(ota_gate("/ota@bot v2", true, &mut m, &mut log, "t"), OtaGate::Rejected);
    assert_eq!(m.last_sent(), Some("OTA requires WiFi. Cellular fallback mode cannot download firmware."));
    assert_eq!(log.len(), 1);
}

#[test]
fn dispatch_answers_with_the_handler_reply() {
    let store = MemStore::new();
    let q = SmsSender::new();
    let status = ModemStatus::default();
    let ctx = CommandContext {
        store: &store,
        modem_status: &status,
        send_queue: &q,
        uptime_ms: 0,
        free_heap_bytes: 0,
        min_free_heap_bytes: 0,
        wifi_info: "",
        build_commit: "",
    };
    let mut log = LogRing::new();
    let mut r: CommandRegistry<Box<dyn Command>> = CommandRegistry::new();
    r.register(Box::new(RestartCommand));
    assert_eq!(r.dispatch("/restart now", &ctx, &mut log).as_deref(), Some("__RESTART__  \nRebooting…"));
}

#[test]
fn ota_notify_edits_progress_or_sends() {
    let mut m = RecordingMessenger::new();
    assert!(ota_notify(&mut m, None, "done"));
    assert_eq!(m.sent_count(), 1);
    assert_eq!(m.last_sent(), Some("done"));
    assert!(ota_notify(&mut m, Some(7), "failed"));
    assert_eq!(m.sent_count(), 1);
    assert_eq!(m.edited_count(), 1);
    assert_eq!(m.last_edited().unwrap().id, 7);
    assert_eq!(m.last_edited().unwrap().text, "failed");
}
