use smsgate::bridge::forwarder::{
    add_to_blocklist, can_display, forward_sms, is_blocked, load_blocklist, remove_from_blocklist,
    sms_log_preview_for_test,
};
use smsgate::bridge::reply_router::ReplyRouter;
use smsgate::im::MessageFormat;
use smsgate::log_ring::{LogKind, LogRing};
use smsgate::persist::mem::MemStore;
use smsgate::persist::{keys, save_bool, Store};
use smsgate::sms::SmsMessage;
use smsgate::testing::mocks::{FailingMessenger, RecordingMessenger};

fn sms(sender: &str, body: &str) -> SmsMessage {
    SmsMessage {
        sender: sender.to_string(),
        body: body.to_string(),
        timestamp: "24/03/15,10:30:00+32".to_string(),
        slot: 1,
    }
}

#[test]
fn blocklist_add_then_blocked() {
    let mut store = MemStore::new();
    assert!(!is_blocked("+8613800138000", &store));
    add_to_blocklist("+86 138-0013-8000", &mut store).unwrap();
    assert!(is_blocked("+8613800138000", &store));
    assert_eq!(load_blocklist(&store), vec!["+8613800138000".to_string()]);
    let stored = store.load(keys::BLOCK_LIST).unwrap();
    assert_eq!(stored, br#"["+8613800138000"]"#.to_vec());
}

#[test]
fn blocklist_suffix_match() {
    let mut store = MemStore::new();
    add_to_blocklist("13800138000", &mut store).unwrap();
    assert!(is_blocked("+8613800138000", &store));
    assert!(!is_blocked("+8613900139000", &store));
}

#[test]
fn blocklist_add_twice_keeps_one() {
    let mut store = MemStore::new();
    add_to_blocklist("+111", &mut store).unwrap();
    add_to_blocklist("+111", &mut store).unwrap();
    assert_eq!(load_blocklist(&store).len(), 1);
}

#[test]
fn blocklist_remove() {
    let mut store = MemStore::new();
    add_to_blocklist("+111", &mut store).unwrap();
    add_to_blocklist("+222", &mut store).unwrap();
    assert!(remove_from_blocklist("+111", &mut store));
    assert!(!remove_from_blocklist("+111", &mut store));
    assert_eq!(load_blocklist(&store), vec!["+222".to_string()]);
}

#[test]
fn unreadable_blocklist_blocks_nothing() {
    let mut store = MemStore::new();
    store.save(keys::BLOCK_LIST, b"not json").unwrap();
    assert!(!is_blocked("+111", &store));
    assert!(load_blocklist(&store).is_empty());
}

#[test]
fn forwards_and_records_route() {
    let mut store = MemStore::new();
    let mut router = ReplyRouter::new();
    let mut log = LogRing::new();
    let mut m = RecordingMessenger::new();
    let id = forward_sms(&sms("+8613800138000", "hi"), &mut m, &mut router, &mut log, &mut store, "t0").unwrap();
    assert_eq!(id, 1000);
    assert_eq!(
        m.last_sent(),
        Some("📱 SMS from +86 138-0013-8000\n🕐 2024-03-15T10:30:00+08:00\n\nhi")
    );
    assert_eq!(router.lookup(1000), Some("+8613800138000"));
    assert_eq!(m.last_sent_format(), Some(MessageFormat::Html));
    let last = log.latest_of_kind(LogKind::Sms).unwrap();
    assert!(last.forwarded);
    assert_eq!(last.body_preview, "sms_time=2024-03-15T10:30:00+08:00 hi");
}

#[test]
fn paused_forwarding_only_logs() {
    let mut store = MemStore::new();
    save_bool(&mut store, keys::FWD_ENABLED, false).unwrap();
    let mut router = ReplyRouter::new();
    let mut log = LogRing::new();
    let mut m = RecordingMessenger::new();
    assert_eq!(forward_sms(&sms("+111", "hi"), &mut m, &mut router, &mut log, &mut store, "t"), None);
    assert_eq!(m.sent_count(), 0);
    assert!(!log.latest_of_kind(LogKind::Sms).unwrap().forwarded);
}

#[test]
fn blocked_sender_only_logs() {
    let mut store = MemStore::new();
    add_to_blocklist("+111", &mut store).unwrap();
    let mut router = ReplyRouter::new();
    let mut log = LogRing::new();
    let mut m = RecordingMessenger::new();
    assert_eq!(forward_sms(&sms("+111", "hi"), &mut m, &mut router, &mut log, &mut store, "t"), None);
    assert_eq!(m.sent_count(), 0);
}

#[test]
fn failed_send_logs_network_event() {
    let mut store = MemStore::new();
    let mut router = ReplyRouter::new();
    let mut log = LogRing::new();
    let mut m = FailingMessenger;
    assert_eq!(forward_sms(&sms("+111", "hi"), &mut m, &mut router, &mut log, &mut store, "t"), None);
    let net = log.latest_of_kind(LogKind::Network).unwrap();
    assert_eq!(net.body_preview, "send failed: HTTP error: simulated failure");
    assert!(!net.forwarded);
}

#[test]
fn log_preview_forms() {
    let mut s = sms("+1", &"x".repeat(200));
    s.timestamp = String::new();
    assert_eq!(sms_log_preview_for_test(&s), "x".repeat(160));
    s.timestamp = "raw".to_string();
    s.body = "b".to_string();
    assert_eq!(sms_log_preview_for_test(&s), "sms_time=raw b");
}

#[test]
fn displayable_check() {
    assert!(can_display(&sms("+8613800138000", "x")));
    let odd = sms("+8612é1234567", "x");
    assert_eq!(odd.sender.len(), 14);
    assert!(!can_display(&odd));
    let mut bad_ts = sms("+1", "x");
    bad_ts.timestamp = "2é/03/15,10:30:00+32".to_string();
    assert!(!can_display(&bad_ts));
}

#[test]
fn block_then_unblock_then_unblock_again() {
    let mut store = MemStore::new();
    add_to_blocklist("+222", &mut store).unwrap();
    add_to_blocklist("00 86 138", &mut store).unwrap();
    assert!(remove_from_blocklist("0086138", &mut store));
    assert_eq!(load_blocklist(&store), vec!["+222".to_string()]);
    let before = store.load(keys::BLOCK_LIST).unwrap();
    assert!(!remove_from_blocklist("+86138", &mut store));
    assert_eq!(store.load(keys::BLOCK_LIST).unwrap(), before);
}
