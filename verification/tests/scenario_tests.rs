use smsgate::testing::scenario::Scenario;

const HELLO_PDU: &str = "07917283010010F5040BC87238880900F10000993092516195800AE8329BFD4697D9EC37";

#[test]
fn scenario_forwards_pdu_to_messenger() {
    let r = Scenario::new("hello")
        .with_pdu(HELLO_PDU)
        .expect_im_sent_count(1)
        .expect_im_sent_contains("hellohello")
        .expect_pdus_sent(0)
        .expect_hangup_count(0)
        .run();
    assert_eq!(r, Ok(()));
}

#[test]
fn scenario_without_input_sends_nothing() {
    let r = Scenario::new("quiet").modem_urc("RING").expect_im_sent_none().run();
    assert_eq!(r, Ok(()));
}

#[test]
fn scenario_reports_unmet_expectation() {
    let r = Scenario::new("wrong").with_pdu(HELLO_PDU).expect_im_sent_none().run();
    assert_eq!(r, Err("[wrong] expected no IM messages, got 1".to_string()));
    let r = Scenario::new("count").expect_pdus_sent(2).run();
    assert_eq!(r, Err("[count] expected 2 PDUs sent, got 0".to_string()));
    let r = Scenario::new("text").with_pdu(HELLO_PDU).expect_im_sent_contains("bye").run();
    assert_eq!(r, Err("[text] expected an IM message containing bye".to_string()));
}

#[test]
fn scenario_reports_invalid_pdu() {
    let r = Scenario::new("bad").with_pdu("07ZZ").run();
    assert_eq!(r, Err("[bad] invalid PDU in scenario".to_string()));
}
