use smsgate::im::telegram::http::{download_check, download_take, download_wants_more, DownloadCheck};
use smsgate::bridge::monitor::{
    ota_document_stale, pause_expired, pause_seconds, poll_watchdog, signal_change, status_due, status_tick,
    telegram_activity, wifi_fallback, MonitorState, SignalChange, StatusReading,
};
use smsgate::im::telegram::worker::{restart_after_sleep, send_retry_step, RetryAction};
use smsgate::modem::init::{init_resume, init_start, init_step, InitAction, InitPhase, InitState};
use smsgate::modem::{AtResponse, ModemError};

fn reading(csq: u8, operator: &str, stale_secs: u64) -> StatusReading {
    StatusReading {
        csq,
        operator: operator.to_string(),
        free_heap: 100_000,
        stale_secs,
        using_cellular: false,
        wifi_ok: true,
        wifi_connected: true,
    }
}

#[test]
fn poll_watchdog_fires_once_and_falls_back_off_cellular() {
    assert_eq!(poll_watchdog(299, false, false), (false, false));
    assert_eq!(poll_watchdog(300, false, false), (true, true));
    assert_eq!(poll_watchdog(300, false, true), (true, false));
    assert_eq!(poll_watchdog(900, true, false), (false, false));
}

#[test]
fn signal_alert_hysteresis() {
    assert_eq!(signal_change(5, false), SignalChange::Low);
    assert_eq!(signal_change(5, true), SignalChange::Steady);
    assert_eq!(signal_change(6, true), SignalChange::Restored);
    assert_eq!(signal_change(6, false), SignalChange::Steady);
    assert_eq!(signal_change(99, false), SignalChange::Steady);
}

#[test]
fn status_tick_tracks_operator_signal_and_watchdog() {
    let mut st = MonitorState { low_signal_alerted: false, tg_stale_alerted: false, last_operator: String::new() };
    let d = status_tick(&mut st, &reading(3, "CMCC", 10));
    assert_eq!(d.signal, SignalChange::Low);
    assert!(d.operator_change.is_none());
    assert!(st.low_signal_alerted);
    assert_eq!(st.last_operator, "CMCC");
    let d = status_tick(&mut st, &reading(20, "CUCC", 600));
    assert_eq!(d.signal, SignalChange::Restored);
    assert_eq!(d.operator_change, Some(("CMCC".to_string(), "CUCC".to_string())));
    assert_eq!(d.poll_stale_mins, Some(10));
    assert!(d.fallback_on_stale);
    assert!(!d.low_heap);
    assert!(!d.reconnect_wifi);
    let d = status_tick(&mut st, &reading(20, "", 700));
    assert_eq!(d.poll_stale_mins, None);
    assert_eq!(st.last_operator, "CUCC");
    telegram_activity(&mut st);
    assert!(!st.tg_stale_alerted);
    let mut r = reading(20, "CUCC", 0);
    r.wifi_connected = false;
    r.free_heap = 100;
    let d = status_tick(&mut st, &r);
    assert!(d.reconnect_wifi);
    assert!(d.low_heap);
    assert!(wifi_fallback(false));
    assert!(!wifi_fallback(true));
}

#[test]
fn loop_timing_helpers() {
    assert!(status_due(30_001, 0, false));
    assert!(!status_due(30_000, 0, false));
    assert!(!status_due(40_000, 0, true));
    assert!(status_due(10, 0xFFFF_0000, false));
    assert_eq!(pause_seconds(15), 900);
    assert_eq!(pause_seconds(1_000_000), 10080 * 60);
    assert!(pause_expired(10, Some(10)));
    assert!(!pause_expired(9, Some(10)));
    assert!(!pause_expired(9, None));
    assert!(ota_document_stale(true, 5, Some(7)));
    assert!(!ota_document_stale(true, 7, Some(7)));
    assert!(!ota_document_stale(false, 5, Some(7)));
}

#[test]
fn send_retry_policy() {
    assert_eq!(send_retry_step(0, 1000, false, 600_000, 5_000), RetryAction::Return);
    assert_eq!(send_retry_step(1000, 1000, true, 600_000, 5_000), RetryAction::Sleep(4_000));
    assert_eq!(send_retry_step(1000, 9000, true, 600_000, 5_000), RetryAction::Sleep(0));
    assert_eq!(send_retry_step(598_000, 100, true, 600_000, 5_000), RetryAction::Sleep(2_000));
    assert_eq!(send_retry_step(600_000, 100, true, 600_000, 5_000), RetryAction::Restart);
    assert!(restart_after_sleep(600_000, 600_000));
    assert!(!restart_after_sleep(599_999, 600_000));
}

fn ok(body: &str) -> Result<AtResponse, ModemError> {
    Ok(AtResponse { body: body.to_string(), ok: true })
}

fn sent(a: &InitAction) -> String {
    match a {
        InitAction::Send(c) => c.clone(),
        _ => panic!("expected a command"),
    }
}

#[test]
fn init_sequence_without_cellular() {
    let (s, a) = init_start(false, String::new(), 0);
    assert_eq!(sent(&a), "");
    let (s, a) = init_step(&s, Err(ModemError::Timeout), 100);
    assert!(matches!(a, InitAction::Sleep(500)));
    let (s, a) = init_resume(&s);
    assert_eq!(sent(&a), "");
    let mut s: InitState = s;
    let expected = ["E0", "+CPIN?", "+CTZU=1", "+CMGF=0", "+CLIP=1", "+CNMI=2,1,0,0,0", "+CNMI?", "+CPMS?", "+CREG?"];
    let replies = ["", "", "+CPIN: READY", "", "", "", "", "", ""];
    let mut now = 200;
    for (cmd, body) in expected.iter().zip(replies.iter()) {
        let (ns, na) = init_step(&s, ok(body), now);
        assert_eq!(sent(&na), *cmd);
        s = ns;
        now += 10;
    }
    assert_eq!(s.phase, InitPhase::Registration);
    let (s, a) = init_step(&s, ok("+CREG: 0,2"), now);
    assert!(matches!(a, InitAction::Sleep(2000)));
    let (_, a) = init_step(&s, ok("+CREG: 0,1"), now + 2000);
    assert!(matches!(a, InitAction::Finish(Ok(()))));
}

#[test]
fn init_probe_times_out_and_pin_rules() {
    let (s, _) = init_start(true, String::new(), 0);
    let (_, a) = init_step(&s, Err(ModemError::Timeout), 30_001);
    assert!(matches!(a, InitAction::Finish(Err(ModemError::Timeout))));
    let s = InitState { phase: InitPhase::PinQuery, since_ms: 0, cellular_data: true, sim_pin: String::new() };
    let (_, a) = init_step(&s, ok("+CPIN: SIM PIN"), 1);
    match a {
        InitAction::Finish(Err(ModemError::AtError(m))) => assert_eq!(m, "SIM PIN required but none configured"),
        _ => panic!("expected an AT error"),
    }
    let s = InitState { phase: InitPhase::PinQuery, since_ms: 0, cellular_data: true, sim_pin: "1234".to_string() };
    let (s, a) = init_step(&s, ok("+CPIN: SIM PIN"), 1);
    assert_eq!(sent(&a), "+CPIN=\"1234\"");
    let (_, a) = init_step(&s, Ok(AtResponse { body: "ERROR".to_string(), ok: false }), 2);
    match a {
        InitAction::Finish(Err(ModemError::AtError(m))) => assert_eq!(m, "CPIN: ERROR"),
        _ => panic!("expected an AT error"),
    }
    let s = InitState { phase: InitPhase::Registration, since_ms: 0, cellular_data: true, sim_pin: String::new() };
    let (s, a) = init_step(&s, ok("+CREG: 0,2"), 30_001);
    assert_eq!(sent(&a), "+CGATT=1");
    let (_, a) = init_step(&s, Err(ModemError::Timeout), 30_002);
    assert!(matches!(a, InitAction::Finish(Ok(()))));
}

#[test]
fn download_checks() {
    assert_eq!(download_check(200, false), DownloadCheck::Accept);
    assert_eq!(download_check(404, false), DownloadCheck::BadStatus(404));
    assert_eq!(download_check(200, true), DownloadCheck::Chunked);
    assert_eq!(download_take(Some(10), 4, 100), 6);
    assert_eq!(download_take(Some(10), 12, 5), 0);
    assert_eq!(download_take(None, 4, 100), 100);
    assert!(download_wants_more(None, 1_000));
    assert!(!download_wants_more(Some(10), 10));
}
