use smsgate::modem::a76xx::qhttp::{
    attach_pdp, escape_at_quotes_for_test, extract_json_object, qhttp_post_command, qhttp_read_command,
    qhttp_url_command, qicsgp_command, telegram_url,
};
use smsgate::modem::a76xx::sms::{cmgs_command, cmgs_reply_line, message_reference};
use smsgate::modem::{
    creg_registered, csq_from_reply, hang_up_outcome, operator_from_reply, AtResponse, ModemError, ModemPort,
    ModemStatus, CSQ_UNKNOWN,
};
use smsgate::modem::urc::{is_urc, parse_urc, Urc};
use smsgate::bridge::call_handler::can_display_call;
use smsgate::sms::codec::phone_displayable;
use smsgate::testing::mocks::ScriptedModem;

#[test]
fn creg_parsing() {
    assert!(creg_registered("+CREG: 0,1"));
    assert!(creg_registered("+CREG: 0,5"));
    assert!(!creg_registered("+CREG: 0,2"));
}

#[test]
fn csq_parsing() {
    assert_eq!(csq_from_reply("+CSQ: 23,99"), 23);
    assert_eq!(csq_from_reply("+CSQ: 99,99"), 99);
    assert_eq!(csq_from_reply("+CSQ: x,1"), CSQ_UNKNOWN);
    assert_eq!(csq_from_reply("CSQ 5"), CSQ_UNKNOWN);
    assert_eq!(csq_from_reply("+CSQ: 300,1"), CSQ_UNKNOWN);
}

#[test]
fn operator_parsing() {
    assert_eq!(operator_from_reply("+COPS: 0,0,\"CHINA MOBILE\",7"), "CHINA MOBILE");
    assert_eq!(operator_from_reply("+COPS: 0"), "");
}

#[test]
fn default_status_and_update() {
    let d = ModemStatus::default();
    assert_eq!(d.csq, CSQ_UNKNOWN);
    assert!(!d.registered);
    let mut modem = ScriptedModem::new()
        .expect("+CSQ", "+CSQ: 18,99", true)
        .expect("+COPS?", "+COPS: 0,0,\"CMCC\",7", true)
        .expect("+CREG?", "+CREG: 0,1", true);
    let s = modem.update_status();
    assert_eq!((s.csq, s.operator.as_str(), s.registered), (18, "CMCC", true));
}

#[test]
fn update_status_with_failing_modem_is_unknown() {
    let mut modem = ScriptedModem::new();
    let s = modem.update_status();
    assert_eq!(s.csq, CSQ_UNKNOWN);
    assert_eq!(s.operator, "");
    assert!(!s.registered);
}

#[test]
fn hang_up_outcomes() {
    assert!(hang_up_outcome(&AtResponse { body: String::new(), ok: true }).is_ok());
    match hang_up_outcome(&AtResponse { body: "ERROR".to_string(), ok: false }) {
        Err(ModemError::AtError(m)) => assert_eq!(m, "ATH failed"),
        _ => panic!("expected AT error"),
    }
    let mut modem = ScriptedModem::new();
    modem.hang_up().unwrap();
    assert_eq!(modem.hang_up_count, 1);
}

#[test]
fn modem_error_messages() {
    assert_eq!(ModemError::Timeout.message(), "timeout waiting for response");
    assert_eq!(ModemError::AtError("x".to_string()).message(), "modem returned ERROR: x");
    assert_eq!(ModemError::Io.message(), "UART write failed");
    assert_eq!(ModemError::NotReady.message(), "modem not ready");
    assert_eq!(ModemError::NotSupported.message(), "feature not supported on this modem");
}

#[test]
fn qhttp_command_texts() {
    assert_eq!(escape_at_quotes_for_test("a\"b\\c"), "a\\\"b\\\\c");
    assert_eq!(qicsgp_command("cmnet", "", "p\"w"), "+QICSGP=1,1,\"cmnet\",\"\",\"p\\\"w\",1");
    assert_eq!(qhttp_url_command(42), "+QHTTPURL=42,30");
    assert_eq!(qhttp_post_command(7), "+QHTTPPOST=7,30,30");
    assert_eq!(qhttp_read_command(), "+QHTTPREAD=30");
    assert_eq!(telegram_url("/botX/getMe"), "https://api.telegram.org/botX/getMe");
}

#[test]
fn json_object_extraction() {
    assert_eq!(extract_json_object("CONNECT\r\n{\"ok\":true}\r\nOK").unwrap(), "{\"ok\":true}");
    assert_eq!(extract_json_object("  plain  ").unwrap(), "plain");
    match extract_json_object("  \r\n") {
        Err(ModemError::AtError(m)) => assert_eq!(m, "empty HTTP body"),
        _ => panic!("expected empty body error"),
    }
}

#[test]
fn attach_pdp_sequence() {
    let mut modem = ScriptedModem::new()
        .expect("+CGATT=1", "", true)
        .expect("+QIDEACT=1", "", true)
        .expect("+QICSGP=1,1,\"cmnet\",\"u\",\"p\",1", "", true)
        .expect("+QIACT=1", "", false);
    match attach_pdp(&mut modem, "cmnet", "u", "p") {
        Err(ModemError::AtError(m)) => assert_eq!(m, "QIACT: "),
        _ => panic!("expected QIACT error"),
    }
}

#[test]
fn attach_pdp_hands_back_send_error() {
    let mut modem = ScriptedModem::new();
    match attach_pdp(&mut modem, "cmnet", "", "") {
        Err(ModemError::AtError(m)) => assert_eq!(m, "unexpected AT command: AT+CGATT=1"),
        _ => panic!("expected the transport error"),
    }
    let mut modem = ScriptedModem::new()
        .expect("+CGATT=1", "", false)
        .expect("+QIDEACT=1", "", false)
        .expect("+QICSGP=1,1,\"a\",\"\",\"\",1", "", true)
        .expect("+QIDEACT=1", "", true);
    match attach_pdp(&mut modem, "a", "", "") {
        Err(ModemError::AtError(m)) => assert!(m.contains("+QIACT=1")),
        _ => panic!("expected the transport error of the activation"),
    }
}

#[test]
fn cmgs_exchange() {
    assert_eq!(cmgs_command(19), "AT+CMGS=19\r");
    let mut lines = Vec::new();
    assert!(cmgs_reply_line(&mut lines, "  ").is_none());
    assert!(cmgs_reply_line(&mut lines, "+CMGS: 42").is_none());
    assert!(matches!(cmgs_reply_line(&mut lines, "OK\r"), Some(Ok(42))));
    let mut lines2 = Vec::new();
    assert!(matches!(cmgs_reply_line(&mut lines2, "OK"), Some(Ok(0))));
    match cmgs_reply_line(&mut lines2, "+CMS ERROR: 500") {
        Some(Err(ModemError::AtError(m))) => assert_eq!(m, "+CMS ERROR: 500"),
        _ => panic!("expected error"),
    }
    assert_eq!(message_reference(&["+CMGS: x".to_string()]), 0);
}

#[test]
fn urc_new_sms_names_storage_and_slot() {
    match parse_urc("  +CMTI: \"ME\",12\r\n") {
        Urc::NewSms { mem, index } => {
            assert_eq!(mem, "ME");
            assert_eq!(index, 12);
        }
        other => panic!("unexpected {:?}", other),
    }
}

#[test]
fn urc_new_sms_with_bad_slot_is_other() {
    assert!(matches!(parse_urc("+CMTI: \"SM\",70000"), Urc::Other));
    assert!(matches!(parse_urc("+CMTI: \"SM\""), Urc::Other));
    assert!(matches!(parse_urc("+CMTI: \"SM\",x"), Urc::Other));
}

#[test]
fn urc_direct_delivery_and_others() {
    assert!(matches!(parse_urc("+CMT: ,24"), Urc::SmsDelivery));
    assert!(matches!(parse_urc("RING"), Urc::Other));
    assert!(matches!(parse_urc("+CLIP: \"13800138000\",129"), Urc::Other));
}

#[test]
fn urc_lines_are_recognised() {
    assert!(is_urc("+CMTI: \"ME\",1"));
    assert!(is_urc("+CMT: ,24"));
    assert!(is_urc("+CDS: 25"));
    assert!(is_urc("+CLIP: \"123\",129"));
    assert!(is_urc(" RING "));
    assert!(is_urc("NO CARRIER"));
    assert!(!is_urc("+CSQ: 20,99"));
    assert!(!is_urc("RINGING"));
    assert!(!is_urc("OK"));
}

#[test]
fn phone_display_check() {
    assert!(phone_displayable("+8613800138000"));
    assert!(phone_displayable("10086"));
    assert!(phone_displayable(""));
    // A "+86" number of 14 bytes whose slice points fall inside a character.
    assert!(!phone_displayable("+8612é1234567"));
}

#[test]
fn call_display_check() {
    assert!(can_display_call("RING"));
    assert!(can_display_call("+CLIP: \"13800138000\",129"));
    assert!(!can_display_call("+CLIP: \"+8612é1234567\",145"));
}
