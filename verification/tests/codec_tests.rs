use smsgate::sms::codec::{
    build_sms_submit_pdus, count_sms_parts, pack_septets, human_readable_phone, is_gsm7_compatible, normalize_phone,
    parse_clip_line, parse_sms_pdu, push_timestamp_rfc3339, timestamp_to_rfc3339,
};
use smsgate::sms::SmsError;
use smsgate::testing::pdu;

const HELLO_PDU: &str = "07917283010010F5040BC87238880900F10000993092516195800AE8329BFD4697D9EC37";
const HOW_ARE_YOU_PDU: &str = "07911326040000F0040B911346610089F60000208062917314080CC8F71D14969741F977FD07";

#[test]
fn parses_national_gsm7_pdu() {
    let p = parse_sms_pdu(HELLO_PDU).unwrap();
    assert_eq!(p.sender, "27838890001");
    assert_eq!(p.content, "hellohello");
    assert_eq!(p.timestamp, "99/03/29,15:16:59-00");
    assert!(!p.is_concatenated);
    assert_eq!(p.destination_port, None);
}

#[test]
fn parses_international_gsm7_pdu() {
    let p = parse_sms_pdu(HOW_ARE_YOU_PDU).unwrap();
    assert_eq!(p.sender, "+31641600986");
    assert_eq!(p.content, "How are you?");
    assert_eq!(p.timestamp, "02/08/26,19:37:41+80");
}

#[test]
fn pdu_helper_strips_whitespace() {
    let spaced = pdu("0791 7283 0100 10F5\n040B C872 3888 0900 F100 0099 3092 5161 9580 0AE8 329B FD46 97D9 EC37");
    assert_eq!(spaced, HELLO_PDU);
    assert_eq!(parse_sms_pdu(&spaced).unwrap().content, "hellohello");
}

#[test]
fn rejects_bad_pdus() {
    assert!(matches!(parse_sms_pdu(""), Err(SmsError::MalformedPdu("truncated before SCA"))));
    assert!(matches!(parse_sms_pdu("ZZ"), Err(SmsError::MalformedPdu("invalid hex"))));
    assert!(matches!(parse_sms_pdu("0791"), Err(SmsError::MalformedPdu(_))));
}

#[test]
fn builds_single_part_submit_pdu() {
    let parts = build_sms_submit_pdus("+8613800138000", "hello", 10, false, 0);
    assert_eq!(parts.len(), 1);
    assert_eq!(parts[0].hex, "0001000D91683108108300F0000005E8329BFD06");
    assert_eq!(parts[0].tpdu_len, 19);
}

#[test]
fn empty_phone_or_body_builds_nothing() {
    assert!(build_sms_submit_pdus("", "hello", 10, false, 0).is_empty());
    assert!(build_sms_submit_pdus("+1", "", 10, false, 0).is_empty());
}

#[test]
fn counts_parts() {
    assert_eq!(count_sms_parts("hello", 10), 1);
    assert_eq!(count_sms_parts(&"a".repeat(160), 10), 1);
    assert_eq!(count_sms_parts(&"a".repeat(161), 10), 2);
    assert_eq!(count_sms_parts(&"a".repeat(2000), 10), 0);
    assert_eq!(count_sms_parts("你好", 10), 1);
}

#[test]
fn gsm7_compatibility() {
    assert!(is_gsm7_compatible("Hello, world! @£$"));
    assert!(!is_gsm7_compatible("你好"));
}

#[test]
fn human_readable_phone_formats_chinese_numbers() {
    assert_eq!(human_readable_phone("13800138000"), "+86 138-0013-8000");
    assert_eq!(human_readable_phone("+8613800138000"), "+86 138-0013-8000");
    assert_eq!(human_readable_phone("+31641600986"), "+31641600986");
}

#[test]
fn normalize_phone_strips_formatting() {
    assert_eq!(normalize_phone("+86 138-0013-8000"), "+8613800138000");
    assert_eq!(normalize_phone("0086 138 0013 8000"), "+8613800138000");
    assert_eq!(normalize_phone("abc"), "");
}

#[test]
fn timestamp_to_rfc3339_formats() {
    assert_eq!(timestamp_to_rfc3339("24/03/15,10:30:00+32", 480), "2024-03-15T10:30:00+08:00");
    assert_eq!(timestamp_to_rfc3339("24/03/15,10:30:00+32", -300), "2024-03-15T10:30:00-05:00");
    assert_eq!(timestamp_to_rfc3339("short", 480), "");
    let mut out = String::from("t=");
    assert!(!push_timestamp_rfc3339(&mut out, "short", 480));
    assert_eq!(out, "t=");
    assert!(push_timestamp_rfc3339(&mut out, "24/03/15,10:30:00+32", 0));
    assert_eq!(out, "t=2024-03-15T10:30:00+00:00");
}

#[test]
fn clip_line_parses_number() {
    assert_eq!(parse_clip_line("+CLIP: \"+8613800138000\",145,,,,0").as_deref(), Some("+8613800138000"));
    assert_eq!(parse_clip_line("RING"), None);
}

/// Re-frames a single-part SMS-SUBMIT as the SMS-DELIVER the recipient would get.
fn submit_as_deliver(submit_hex: &str) -> String {
    let digits = usize::from_str_radix(&submit_hex[6..8], 16).unwrap();
    let da_end = 6 + 2 * (2 + (digits + 1) / 2);
    let address = &submit_hex[6..da_end];
    let rest = &submit_hex[da_end..];
    format!("0004{}{}99309251619580{}", address, &rest[..4], &rest[4..])
}

#[test]
fn gsm7_text_survives_encode_and_decode() {
    let body = "Hello {world} costs 5€ [ok] ~ ^ \\ | @ $";
    assert!(is_gsm7_compatible(body));
    let pdus = build_sms_submit_pdus("+15551234567", body, 10, false, 0);
    assert_eq!(pdus.len(), 1);
    let deliver = submit_as_deliver(&pdus[0].hex);
    let parsed = parse_sms_pdu(&deliver).unwrap();
    assert_eq!(parsed.sender, "+15551234567");
    assert_eq!(parsed.content, body);
}

#[test]
fn ucs2_text_survives_encode_and_decode() {
    let body = "你好, world 😀";
    assert!(!is_gsm7_compatible(body));
    let pdus = build_sms_submit_pdus("+8613800138000", body, 10, false, 0);
    assert_eq!(pdus.len(), 1);
    let parsed = parse_sms_pdu(&submit_as_deliver(&pdus[0].hex)).unwrap();
    assert_eq!(parsed.content, body);
}

#[test]
fn packed_septets_layout() {
    let septets: Vec<u8> = "hellohello".bytes().collect();
    assert_eq!(pack_septets(&septets, 0), vec![0xE8, 0x32, 0x9B, 0xFD, 0x46, 0x97, 0xD9, 0xEC, 0x37]);
    let shifted = pack_septets(&septets, 1);
    assert_eq!(shifted.len(), (1 + 7 * 10 + 7) / 8);
    assert_eq!(shifted[0] & 1, 0);
    assert_eq!(shifted[0] >> 1, 0x68);
    let udh_aligned = pack_septets(&[0x41], 49);
    assert_eq!(udh_aligned.len(), 7);
    assert!(udh_aligned[..6].iter().all(|b| *b == 0));
    assert_eq!(udh_aligned[6], 0x82);
    assert!(pack_septets(&[], 0).is_empty());
}
