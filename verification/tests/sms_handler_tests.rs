use smsgate::bridge::reply_router::ReplyRouter;
use smsgate::bridge::sms_handler::{
    decode_modem_text, decode_ucs2_hex, lines_of, parse_at_csv, parse_cmgl_listing, parse_cmgr_response,
    process_pdu_hex, process_stored_sms, read_new_sms_pdu, read_stored_sms,
};
use smsgate::log_ring::LogRing;
use smsgate::mms::MmsNotification;
use smsgate::persist::mem::MemStore;
use smsgate::sms::concat::ConcatReassembler;
use smsgate::testing::mocks::{RecordingMessenger, ScriptedModem};

const HELLO_PDU: &str = "07917283010010F5040BC87238880900F10000993092516195800AE8329BFD4697D9EC37";

fn mms_text(n: &MmsNotification) -> String {
    format!("MMS {}", n.content_location)
}

#[test]
fn csv_fields() {
    assert_eq!(parse_at_csv("\"REC UNREAD\",\"+123\",,\"24/03/15,10:30:00+32\""), vec!["REC UNREAD", "+123", "", "24/03/15,10:30:00+32"]);
    assert_eq!(parse_at_csv(" 1 , 2 "), vec!["1", "2"]);
}

#[test]
fn ucs2_hex_text() {
    assert_eq!(decode_ucs2_hex("4F60597D").as_deref(), Some("你好"));
    assert_eq!(decode_ucs2_hex("0048 0069").as_deref(), Some("Hi"));
    assert_eq!(decode_ucs2_hex("D83DDE00").as_deref(), None);
    assert_eq!(decode_ucs2_hex("D83D").as_deref(), None);
    assert_eq!(decode_ucs2_hex("123"), None);
    assert_eq!(decode_ucs2_hex("hello"), None);
    assert_eq!(decode_modem_text("1234"), "1234");
    assert_eq!(decode_modem_text("Hello"), "Hello");
}

#[test]
fn lines_are_trimmed_and_non_empty() {
    assert_eq!(lines_of(" a \r\n\r\n b\n"), vec!["a", "b"]);
}

#[test]
fn cmgr_pdu_mode() {
    let s = parse_cmgr_response("SM", 3, &format!("+CMGR: 0,,39\r\n{}", HELLO_PDU)).unwrap();
    assert_eq!(s.mem, "SM");
    assert_eq!(s.index, 3);
    assert_eq!(s.pdu_hex, HELLO_PDU);
    assert!(parse_cmgr_response("SM", 3, "garbage").is_none());
    assert!(parse_cmgr_response("SM", 3, "+CMGR: 0,,39").is_none());
}

#[test]
fn cmgr_text_mode() {
    let s = parse_cmgr_response("SM", 4, "+CMGR: \"REC UNREAD\",\"+123\",,\"24/03/15,10:30:00+32\"\r\n4F60597D").unwrap();
    assert_eq!(s.pdu_hex, "");
    let mut router = ReplyRouter::new();
    let mut log = LogRing::new();
    let mut concat = ConcatReassembler::new();
    let mut m = RecordingMessenger::new();
    let mut store = MemStore::new();
    assert!(process_stored_sms(s, &mut router, &mut log, &mut concat, &mut m, &mut store, "t", mms_text));
    assert_eq!(m.last_sent(), Some("📱 SMS from +123\n🕐 2024-03-15T10:30:00+08:00\n\n你好"));
}

#[test]
fn cmgl_listing() {
    let body = format!(
        "+CMGL: 1,0,,39\r\n{}\r\n+CMGL: 2,\"REC READ\",\"+456\",,\"24/01/02,03:04:05+32\"\r\nline one\r\nline two",
        HELLO_PDU
    );
    let v = parse_cmgl_listing("ME", &body);
    assert_eq!(v.len(), 2);
    assert_eq!(v[0].index, 1);
    assert_eq!(v[0].pdu_hex, HELLO_PDU);
    assert_eq!(v[1].index, 2);
    assert_eq!(v[1].pdu_hex, "");
    assert!(parse_cmgl_listing("ME", "stray line").is_empty());
}

#[test]
fn read_new_sms_with_scripted_modem() {
    let mut modem = ScriptedModem::new()
        .expect("+CMGF=0", "", true)
        .expect("+CPMS=\"SM\"", "", true)
        .expect("+CMGR=3", &format!("+CMGR: 0,,39\n{}", HELLO_PDU), true);
    let s = read_new_sms_pdu("SM", 3, &mut modem).unwrap();
    assert_eq!(s.pdu_hex, HELLO_PDU);
    assert!(modem.check_consumed().is_ok());
}

#[test]
fn read_new_sms_error_reply() {
    let mut modem = ScriptedModem::new()
        .expect("+CMGF=0", "", true)
        .expect("+CPMS=\"SM\"", "", true)
        .expect("+CMGR=3", "+CMS ERROR: 321", false);
    assert!(read_new_sms_pdu("SM", 3, &mut modem).is_none());
}

#[test]
fn sweep_falls_back_to_text_listing() {
    let mut modem = ScriptedModem::new()
        .expect("+CMGF=0", "", true)
        .expect("+CMGL=4", "ERROR", false)
        .expect("+CMGL=\"ALL\"", &format!("+CMGL: 7,0,,39\n{}", HELLO_PDU), true);
    let v = read_stored_sms("SM", &mut modem);
    assert_eq!(v.len(), 1);
    assert_eq!(v[0].index, 7);
    assert!(modem.check_consumed().is_ok());
}

#[test]
fn process_pdu_forwards_and_deletes() {
    let mut router = ReplyRouter::new();
    let mut log = LogRing::new();
    let mut concat = ConcatReassembler::new();
    let mut m = RecordingMessenger::new();
    let mut store = MemStore::new();
    assert!(process_pdu_hex(HELLO_PDU, 1, &mut router, &mut log, &mut concat, &mut m, &mut store, "t", mms_text));
    assert_eq!(m.last_sent(), Some("📱 SMS from +86 278-3889-0001\n🕐 2099-03-29T15:16:59+08:00\n\nhellohello"));
    assert!(process_pdu_hex("NOT A PDU", 1, &mut router, &mut log, &mut concat, &mut m, &mut store, "t", mms_text));
    assert_eq!(m.sent_count(), 1);
}
