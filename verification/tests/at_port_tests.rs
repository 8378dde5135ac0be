use smsgate::modem::a76xx::at::{reply_of_lines, AtPort, UartPort};
use smsgate::modem::ModemError;
use smsgate::testing::mocks::MockUart;
use std::time::Duration;

fn port_with(responses: &[&str]) -> AtPort<MockUart> {
    let mut uart = MockUart::new();
    for line in responses {
        uart.queue_response_line(line);
    }
    AtPort::new(uart)
}

#[test]
fn at_port_collects_body_until_ok() {
    let mut port = port_with(&["+CSQ: 20,99", "OK"]);
    let r = port.send_at("+CSQ").unwrap();
    assert!(r.ok);
    assert_eq!(r.body, "+CSQ: 20,99");
    assert_eq!(port.inner().sent_str(), "AT+CSQ\r");
}

#[test]
fn at_port_joins_multiple_body_lines() {
    let mut port = port_with(&["", "first", "  second  ", "OK"]);
    let r = port.send_at("+X").unwrap();
    assert!(r.ok);
    assert_eq!(r.body, "first\nsecond");
}

#[test]
fn at_port_returns_error_line() {
    let mut port = port_with(&["+CME ERROR: 10"]);
    let r = port.send_at("+CPIN?").unwrap();
    assert!(!r.ok);
    assert_eq!(r.body, "+CME ERROR: 10");
    let mut port = port_with(&["ERROR"]);
    let r = port.send_at("+BAD").unwrap();
    assert!(!r.ok);
    assert_eq!(r.body, "ERROR");
}

#[test]
fn at_port_keeps_waiting_urcs_before_command() {
    let mut uart = MockUart::new();
    uart.feed_line("+CMTI: \"ME\",3");
    uart.queue_response_line("OK");
    let mut port = AtPort::new(uart);
    let r = port.send_at("").unwrap();
    assert!(r.ok);
    assert_eq!(r.body, "");
    assert_eq!(port.poll_urc().as_deref(), Some("+CMTI: \"ME\",3"));
}

#[test]
fn at_port_moves_urcs_out_of_reply() {
    let mut port = port_with(&["RING", "+CSQ: 5,0", "+CLIP: \"10086\",129", "OK"]);
    let r = port.send_at("+CSQ").unwrap();
    assert_eq!(r.body, "+CSQ: 5,0");
    assert_eq!(port.poll_urc().as_deref(), Some("RING"));
    assert_eq!(port.poll_urc().as_deref(), Some("+CLIP: \"10086\",129"));
}

#[test]
fn at_port_poll_urc_reads_line_when_buffer_empty() {
    let mut uart = MockUart::new();
    uart.feed_line("  +CMT: ,24 ");
    let mut port = AtPort::new(uart);
    assert_eq!(port.poll_urc().as_deref(), Some("+CMT: ,24"));
    assert_eq!(port.poll_urc(), None);
}

#[test]
fn at_port_times_out_without_reply() {
    let mut port = port_with(&[]);
    let r = port.send_at_with_timeout("+CSQ", 100_000_000);
    assert!(matches!(r, Err(ModemError::Timeout)));
    assert_eq!(port.inner().sent_str(), "AT+CSQ\r");
}

#[test]
fn at_port_connect_payload_exchange() {
    let mut uart = MockUart::new();
    uart.queue_response_line("CONNECT");
    uart.finish_response();
    uart.queue_response_line("OK");
    let mut port = AtPort::new(uart);
    let r = port.send_at_connect_payload("+QHTTPURL=5,30", "hello\n\n").unwrap();
    assert!(r.ok);
    assert_eq!(port.inner().sent_str(), "AT+QHTTPURL=5,30\rhello\r\n");
}

#[test]
fn at_port_connect_refused_before_connect() {
    let mut port = port_with(&["+CME ERROR: 3"]);
    let r = port.send_at_connect_payload("+QHTTPPOST=2,30,30", "{}").unwrap();
    assert!(!r.ok);
    assert_eq!(r.body, "+CME ERROR: 3");
    assert_eq!(port.inner().sent_str(), "AT+QHTTPPOST=2,30,30\r");
}

#[test]
fn at_port_prompt_wait() {
    let mut uart = MockUart::new();
    uart.feed(b"\r\n> ");
    let mut port = AtPort::new(uart);
    assert!(port.wait_for_prompt(b'>', Duration::from_millis(200)));
    assert!(!port.wait_for_prompt(b'>', Duration::from_millis(50)));
}

#[test]
fn at_port_write_raw() {
    let mut port = port_with(&[]);
    port.write_raw(b"0011\x1a").unwrap();
    assert_eq!(port.inner().sent_str(), "0011\u{1a}");
}

#[test]
fn mock_uart_releases_one_batch_per_write() {
    let mut uart = MockUart::default();
    uart.queue_response(b"A");
    uart.finish_response();
    uart.queue_response(b"B");
    assert_eq!(uart.read_byte(0), None);
    uart.write_all(b"x").unwrap();
    assert_eq!(uart.read_byte(0), Some(b'A'));
    assert_eq!(uart.read_byte(0), None);
    uart.write_all(b"y").unwrap();
    assert_eq!(uart.read_byte(0), Some(b'B'));
    assert_eq!(uart.sent_str(), "xy");
}

#[test]
fn reply_of_lines_reads_the_first_final_line() {
    let ls = |v: &[&str]| v.iter().map(|s| s.to_string()).collect::<Vec<String>>();
    let r = reply_of_lines(&ls(&["", " A7670G ", "+CMTI: \"SM\",3", "OK", "ERROR"])).unwrap();
    assert!(r.ok);
    assert_eq!(r.body, "A7670G");
    let r = reply_of_lines(&ls(&["x", "+CME ERROR: 10"])).unwrap();
    assert!(!r.ok);
    assert_eq!(r.body, "+CME ERROR: 10");
    assert!(reply_of_lines(&ls(&["partial", ""])).is_none());
}

#[test]
fn at_port_reply_matches_the_uart_lines() {
    let mut u = MockUart::new();
    u.queue_response_line("A7670G");
    u.queue_response_line("OK");
    let mut p = AtPort::new(u);
    let r = p.send_at("I").unwrap();
    assert_eq!(r.body, "A7670G");
    assert!(r.ok);
    let mut u = MockUart::new();
    u.queue_response_line("ERROR");
    let mut p = AtPort::new(u);
    let r = p.send_at("I").unwrap();
    assert_eq!(r.body, "ERROR");
    assert!(!r.ok);
}
