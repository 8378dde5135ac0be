use smsgate::boards::BoardError;
use smsgate::creds::setting_i64;
use smsgate::im::telegram::http::{
    body_chunk_fits, body_length_ok, find_header_end, parse_headers, status_of_line, MAX_BODY_BYTES,
};
use smsgate::mms::{expiry_duration, DurationUnit};
use smsgate::bridge::call_handler::CallHandler;
use smsgate::im::telegram::types::{json_escape, Chat, Message, Update};
use smsgate::im::telegram::{build_get_updates_body, build_set_my_commands_body, update_to_inbound_message};
use smsgate::im::MessengerError;
use smsgate::log_ring::{FlashLogError, FlashLogRing, LogEntry, LogFlashStorage, LogKind, LogRing, MemFlashLogStorage};
use smsgate::ota::{
    check_image_complete, check_image_fits, expected_image_size, format_running_slot_summary,
    format_starting_message, is_ota_caption, latest_ota_document_cursor, ota_progress_due, OtaError,
    RunningSlotSummary,
};
use smsgate::im::{InboundDocument, InboundMessage};
use smsgate::persist::mem::MemStore;
use smsgate::persist::{load_bool, load_i64, save_bool, save_i64, StoreError};
use smsgate::testing::mocks::ScriptedModem;

#[test]
fn call_is_hung_up_and_notified_once() {
    let mut h = CallHandler::new();
    let mut modem = ScriptedModem::new();
    assert_eq!(h.handle_urc_at("RING", 0, &mut modem), None);
    let notice = h.handle_urc_at("+CLIP: \"+8613800138000\",145,,,,0", 100, &mut modem);
    assert_eq!(notice.as_deref(), Some("📞 Incoming call from +86 138-0013-8000"));
    assert_eq!(modem.hang_up_count, 1);
    assert_eq!(h.handle_urc_at("+CLIP: \"+8613800138000\",145,,,,0", 200, &mut modem), None);
    assert_eq!(h.handle_urc_at("RING", 300, &mut modem), None);
    assert_eq!(h.tick_at(1_000_000_000, &mut modem), None);
    assert_eq!(modem.hang_up_count, 1);
}

#[test]
fn call_without_caller_id_commits_after_deadline() {
    let mut h = CallHandler::new();
    let mut modem = ScriptedModem::new();
    h.handle_urc_at("RING", 10, &mut modem);
    assert_eq!(h.tick_at(1_000_000_000, &mut modem), None);
    assert_eq!(h.tick_at(1_500_000_010, &mut modem).as_deref(), Some("📞 Incoming call from unknown caller"));
    assert_eq!(modem.hang_up_count, 1);
    h.tick_at(7_500_000_010, &mut modem);
    h.handle_urc_at("RING", 7_600_000_000, &mut modem);
    assert!(h.handle_urc_at("+CLIP: \"\",128,,,,0", 7_600_000_001, &mut modem).is_some());
}

#[test]
fn no_carrier_returns_to_idle() {
    let mut h = CallHandler::new();
    let mut modem = ScriptedModem::new();
    h.handle_urc_at("RING", 0, &mut modem);
    h.handle_urc_at("NO CARRIER", 1, &mut modem);
    assert_eq!(h.tick_at(5_000_000_000, &mut modem), None);
    assert_eq!(modem.hang_up_count, 0);
}

#[test]
fn ota_captions() {
    assert!(is_ota_caption("/ota"));
    assert!(is_ota_caption("  /ota@mybot now"));
    assert!(!is_ota_caption("ota"));
    assert!(!is_ota_caption("/otaa"));
    assert!(!is_ota_caption(""));
}

fn doc_msg(cursor: i64, text: &str, doc: bool) -> InboundMessage {
    InboundMessage {
        cursor,
        text: text.to_string(),
        reply_to: None,
        document: if doc {
            Some(InboundDocument {
                file_id: "f".to_string(),
                file_unique_id: "u".to_string(),
                file_name: None,
                mime_type: None,
                file_size: None,
                caption: None,
            })
        } else {
            None
        },
        callback: None,
    }
}

#[test]
fn newest_ota_document_wins() {
    let msgs = vec![doc_msg(5, "/ota", true), doc_msg(9, "/ota", false), doc_msg(7, "/ota", true), doc_msg(8, "x", true)];
    assert_eq!(latest_ota_document_cursor(&msgs), Some(7));
    assert_eq!(latest_ota_document_cursor(&[]), None);
}

#[test]
fn ota_messages_and_checks() {
    let s = RunningSlotSummary {
        slot_label: "ota_0",
        slot_state: "Valid",
        partition_label: "ota_0",
        partition_address: 0x110000,
        partition_size: 1966080,
        firmware_version: "1.2.3",
        firmware_released: "2024",
        build_commit: "abc",
    };
    assert_eq!(
        format_running_slot_summary(&s),
        "running slot=ota_0 state=Valid partition=ota_0 offset=0x110000 size=1966080 version=1.2.3 released=2024 build=abc"
    );
    assert_eq!(format_starting_message("1.0", "abc"), "smsgate starting… version=1.0 build=abc");
    assert_eq!(expected_image_size(None, Some(10)).unwrap(), Some(10));
    assert_eq!(expected_image_size(Some(3), Some(10)).unwrap(), Some(3));
    assert_eq!(expected_image_size(None, None).unwrap(), None);
    assert!(matches!(check_image_fits(Some(11), 10), Err(OtaError::ImageTooLarge { size: 11, slot_size: 10 })));
    assert!(check_image_fits(Some(10), 10).is_ok());
    assert_eq!(check_image_complete(5, Some(6)).unwrap_err().message(), "HTTP: incomplete: got 5 of 6 bytes");
    assert_eq!(OtaError::MissingFilePath.message(), "Telegram file has no download path");
    assert_eq!(OtaError::FileSizeTooLarge(7).message(), "file size is too large for this platform: 7");
    assert_eq!(OtaError::Flash("w".to_string()).message(), "Flash: w");
    assert!(ota_progress_due(10, Some(10), 9));
    assert!(!ota_progress_due(100, None, 0));
    assert!(ota_progress_due(131072, None, 0));
}

#[test]
fn log_ring_pages_newest_first() {
    let mut log = LogRing::new();
    assert!(log.is_empty());
    for i in 0..3 {
        log.push(LogEntry::sms(format!("+{}", i), "b".to_string(), "t".to_string(), true));
    }
    assert_eq!(log.len(), 3);
    let page = log.page(0, 2).unwrap();
    assert_eq!(page.iter().map(|e| e.sender.as_str()).collect::<Vec<_>>(), vec!["+2", "+1"]);
    assert_eq!(log.last_n(2).iter().map(|e| e.sender.as_str()).collect::<Vec<_>>(), vec!["+1", "+2"]);
    assert_eq!(log.latest_of_kind(LogKind::Sms).unwrap().sender, "+2");
    assert!(log.latest_of_kind(LogKind::Call).is_none());
}

#[test]
fn persist_roundtrips() {
    let mut store = MemStore::new();
    save_i64(&mut store, "k", -42).unwrap();
    assert_eq!(load_i64(&store, "k"), Some(-42));
    save_bool(&mut store, "b", true).unwrap();
    assert_eq!(load_bool(&store, "b"), Some(true));
    assert_eq!(load_bool(&store, "missing"), None);
    assert_eq!(StoreError::Nvs("x".to_string()).message(), "NVS error: x");
    assert_eq!(StoreError::Serde("y".to_string()).message(), "serialisation error: y");
}

#[test]
fn telegram_bodies() {
    assert_eq!(
        build_get_updates_body(5, 100),
        "{\"offset\":5,\"timeout\":30,\"limit\":10,\"allowed_updates\":[\"message\",\"callback_query\"]}"
    );
    assert_eq!(json_escape("a\"b\n"), "a\\\"b\\n");
    let body = build_set_my_commands_body(&[("help", "List all commands")]);
    assert_eq!(body, "{\"commands\":[{\"command\":\"help\",\"description\":\"List all commands\"}]}");
    assert_eq!(MessengerError::Disconnected.message(), "not connected");
}

#[test]
fn updates_from_other_chats_are_dropped() {
    let mk = |chat: i64| Update {
        update_id: 10,
        message: Some(Message {
            message_id: 3,
            text: Some("/status".to_string()),
            caption: None,
            document: None,
            reply_to_message: None,
            chat: Chat { id: chat },
        }),
        callback_query: None,
    };
    let m = update_to_inbound_message(mk(1), 1).unwrap();
    assert_eq!(m.text, "/status");
    assert_eq!(m.cursor, 11);
    assert!(update_to_inbound_message(mk(2), 1).is_none());
}

#[test]
fn http_header_framing() {
    assert_eq!(find_header_end(b"HTTP/1.1 200 OK\r\nA: b\r\n\r\nbody"), Some(21));
    assert_eq!(find_header_end(b"no end\r\n"), None);
    let h = parse_headers("HTTP/1.1 200 OK\r\nContent-Length: 12\r\nTransfer-Encoding: Chunked", vec![1, 2]).unwrap();
    assert_eq!(h.status, 200);
    assert_eq!(h.content_length, Some(12));
    assert!(h.chunked);
    assert_eq!(h.remainder, vec![1, 2]);
    let h2 = parse_headers("HTTP/1.1 404 Not Found\r\ncontent-length: x", Vec::new()).unwrap();
    assert_eq!(h2.status, 404);
    assert_eq!(h2.content_length, None);
    assert!(!h2.chunked);
    assert!(parse_headers("garbage", Vec::new()).is_err());
    assert_eq!(status_of_line("  HTTP/1.0   301 Moved"), Some(301));
}

#[test]
fn board_error_messages() {
    assert_eq!(BoardError::Gpio("pin".to_string()).message(), "GPIO init failed: pin");
    assert_eq!(BoardError::Uart("u".to_string()).message(), "UART init failed: u");
}

#[test]
fn mem_flash_read_past_end_is_out_of_bounds() {
    let mut st = MemFlashLogStorage::new(512, 256);
    let mut buf = [0u8; 4];
    assert!(matches!(st.read(510, &mut buf), Err(FlashLogError::OutOfBounds)));
    assert_eq!(buf, [0u8; 4]);
    assert!(st.read(508, &mut buf).is_ok());
    assert_eq!(buf, [0xFFu8; 4]);
}

#[test]
fn mem_flash_write_ands_bits_and_refuses_past_end() {
    let mut st = MemFlashLogStorage::new(512, 256);
    assert!(st.write(0, &[0x0F, 0xF0]).is_ok());
    assert!(st.write(0, &[0x3C]).is_ok());
    let mut buf = [0u8; 2];
    st.read(0, &mut buf).unwrap();
    assert_eq!(buf, [0x0C, 0xF0]);
    assert!(matches!(st.write(511, &[0, 0]), Err(FlashLogError::OutOfBounds)));
}

#[test]
fn mem_flash_erase_checks_alignment_then_bounds() {
    let mut st = MemFlashLogStorage::new(512, 256);
    assert!(matches!(
        st.erase(100, 256),
        Err(FlashLogError::InvalidGeometry { size: 512, erase_size: 256 })
    ));
    assert!(matches!(st.erase(256, 512), Err(FlashLogError::OutOfBounds)));
    st.write(300, &[0]).unwrap();
    assert!(st.erase(256, 256).is_ok());
    let mut buf = [0u8; 1];
    st.read(300, &mut buf).unwrap();
    assert_eq!(buf, [0xFF]);
}

#[test]
fn log_ring_in_memory_counts_every_push() {
    let mut log = LogRing::new();
    for i in 0..3 {
        log.push(LogEntry::sms(format!("+1555000{}", i), "hi".to_string(), String::new(), true));
    }
    assert_eq!(log.len(), 3);
    assert_eq!(log.last_n(2).len(), 2);
    assert!(log.page(0, 10).is_ok());
}

#[test]
fn chat_id_setting_parses_like_i64() {
    assert_eq!(setting_i64("-1001234567890"), Some(-1001234567890));
    assert_eq!(setting_i64("42"), Some(42));
    assert_eq!(setting_i64("+42"), Some(42));
    assert_eq!(setting_i64("-9223372036854775808"), Some(i64::MIN));
    assert_eq!(setting_i64("9223372036854775807"), Some(i64::MAX));
    assert_eq!(setting_i64("9223372036854775808"), None);
    assert_eq!(setting_i64("-+1"), None);
    assert_eq!(setting_i64("-"), None);
    assert_eq!(setting_i64(""), None);
    assert_eq!(setting_i64(" 1"), None);
    for s in ["0", "-0", "12x", "+", "123456"] {
        assert_eq!(setting_i64(s), s.parse::<i64>().ok());
    }
}

#[test]
fn mms_expiry_in_largest_unit() {
    assert_eq!(expiry_duration(172_800), (2, DurationUnit::Days));
    assert_eq!(expiry_duration(7_200), (2, DurationUnit::Hours));
    assert_eq!(expiry_duration(120), (2, DurationUnit::Minutes));
    assert_eq!(expiry_duration(61), (61, DurationUnit::Seconds));
    assert_eq!(expiry_duration(0), (0, DurationUnit::Days));
}

#[test]
fn api_body_size_limits() {
    assert!(body_length_ok(MAX_BODY_BYTES));
    assert!(!body_length_ok(MAX_BODY_BYTES + 1));
    assert!(body_chunk_fits(8000, 192));
    assert!(!body_chunk_fits(8000, 193));
    assert!(!body_chunk_fits(usize::MAX, 1));
}

#[test]
fn flash_ring_remount_and_append_newest() {
    let st = MemFlashLogStorage::new(4096, 1024);
    let mut ring = FlashLogRing::mount(st).unwrap();
    for i in 0..20 {
        let e = LogEntry::sms(format!("+{}", i), "hi".to_string(), "t".to_string(), true);
        ring.append(&e).unwrap();
    }
    let before = ring.entries().unwrap();
    assert_eq!(before.len(), 16);
    assert_eq!(before.last().unwrap().sender, "+19");
    let mut again = FlashLogRing::mount(ring.into_storage()).unwrap();
    let after = again.entries().unwrap();
    assert_eq!(after.len(), before.len());
    assert!(after.iter().zip(before.iter()).all(|(a, b)| a.sender == b.sender && a.body_preview == b.body_preview));
    let newest = LogEntry::sms("+99".to_string(), "last".to_string(), "t".to_string(), false);
    again.append(&newest).unwrap();
    let entries = again.entries().unwrap();
    assert_eq!(entries.last().unwrap().sender, "+99");
    assert_eq!(entries.last().unwrap().body_preview, "last");
    let page = again.page(0, 3).unwrap();
    assert_eq!(page.len(), 3);
    assert_eq!(page[0].sender, "+99");
    assert_eq!(page[1].sender, "+19");
    assert_eq!(page[2].sender, "+18");
    let skipped = again.page(1, 2).unwrap();
    assert_eq!(skipped[0].sender, "+19");
    assert_eq!(skipped[1].sender, "+18");
    assert!(again.page(0, 0).unwrap().is_empty());
}
