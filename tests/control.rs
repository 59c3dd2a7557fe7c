use ferru_wireless_applet::{
    classify_signal, command_reply, radio_query_args, radio_switch_args, scan_access_points,
    scan_args, set_wifi_enabled, signal_icon, tool, wifi_enabled, CommandOutcome, NetError,
    ScanAttempt, ScanStep, SignalBucket,
};

fn failed(msg: &str) -> NetError {
    NetError::CommandFailed(msg.to_string())
}

fn message(e: &NetError) -> String {
    match e {
        NetError::CommandFailed(m) => m.clone(),
        NetError::SpawnFailed(m) => m.clone(),
    }
}

#[test]
fn classify_boundaries() {
    assert_eq!(classify_signal(0), SignalBucket::NoSignal);
    assert_eq!(classify_signal(19), SignalBucket::NoSignal);
    assert_eq!(classify_signal(20), SignalBucket::Weak);
    assert_eq!(classify_signal(39), SignalBucket::Weak);
    assert_eq!(classify_signal(40), SignalBucket::Fair);
    assert_eq!(classify_signal(59), SignalBucket::Fair);
    assert_eq!(classify_signal(60), SignalBucket::Good);
    assert_eq!(classify_signal(79), SignalBucket::Good);
    assert_eq!(classify_signal(80), SignalBucket::Excellent);
    assert_eq!(classify_signal(100), SignalBucket::Excellent);
}

#[test]
fn classify_is_monotonic() {
    let rank = |b: SignalBucket| match b {
        SignalBucket::NoSignal => 0,
        SignalBucket::Weak => 1,
        SignalBucket::Fair => 2,
        SignalBucket::Good => 3,
        SignalBucket::Excellent => 4,
    };
    for x in 0u8..100 {
        assert!(rank(classify_signal(x)) <= rank(classify_signal(x + 1)));
    }
}

#[test]
fn icons_per_bucket() {
    assert_eq!(signal_icon(87), "network-wireless-signal-excellent-symbolic");
    assert_eq!(signal_icon(60), "network-wireless-signal-good-symbolic");
    assert_eq!(signal_icon(45), "network-wireless-signal-ok-symbolic");
    assert_eq!(signal_icon(20), "network-wireless-signal-weak-symbolic");
    assert_eq!(signal_icon(3), "network-wireless-signal-none-symbolic");
}

#[test]
fn command_lines() {
    assert_eq!(tool(), "nmcli");
    assert_eq!(radio_query_args(), vec!["-t", "-f", "WIFI", "g"]);
    assert_eq!(radio_switch_args(true), vec!["radio", "wifi", "on"]);
    assert_eq!(radio_switch_args(false), vec!["radio", "wifi", "off"]);
    assert_eq!(
        scan_args(ScanAttempt::WithRescan),
        vec!["-t", "-f", "IN-USE,SSID,SECURITY,SIGNAL", "dev", "wifi", "list", "--rescan", "auto"]
    );
    assert_eq!(
        scan_args(ScanAttempt::WithoutRescan),
        vec!["-t", "-f", "IN-USE,SSID,SECURITY,SIGNAL", "dev", "wifi", "list"]
    );
}

#[test]
fn reply_on_success_is_stdout() {
    let out = CommandOutcome { status: 0, stdout: "enabled\n".to_string(), stderr: "noise".to_string() };
    assert_eq!(command_reply("nmcli", out).unwrap(), "enabled\n");
}

#[test]
fn reply_on_failure_is_trimmed_stderr() {
    let out = CommandOutcome { status: 2, stdout: String::new(), stderr: "  Error: no device.\n".to_string() };
    let e = command_reply("nmcli", out).unwrap_err();
    assert!(matches!(e, NetError::CommandFailed(_)));
    assert_eq!(message(&e), "Error: no device.");
}

#[test]
fn reply_on_silent_failure_is_generic() {
    let out = CommandOutcome { status: 1, stdout: "x".to_string(), stderr: " \n".to_string() };
    let e = command_reply("nmcli", out).unwrap_err();
    assert_eq!(message(&e), "nmcli returned a failure status.");
}

#[test]
fn radio_state_replies() {
    assert!(wifi_enabled(Ok("enabled\n".to_string())).unwrap());
    assert!(wifi_enabled(Ok("  ENABLED ".to_string())).unwrap());
    assert!(!wifi_enabled(Ok("disabled\n".to_string())).unwrap());
    assert!(!wifi_enabled(Ok(String::new())).unwrap());
    let e = wifi_enabled(Err(failed("boom"))).unwrap_err();
    assert_eq!(message(&e), "boom");
}

#[test]
fn radio_query_is_repeatable() {
    let reply = "enabled\n".to_string();
    let first = wifi_enabled(Ok(reply.clone())).unwrap();
    let second = wifi_enabled(Ok(reply)).unwrap();
    assert_eq!(first, second);
}

#[test]
fn radio_switch_replies() {
    assert!(set_wifi_enabled(Ok("whatever".to_string())).is_ok());
    let e = set_wifi_enabled(Err(NetError::SpawnFailed("missing".to_string()))).unwrap_err();
    assert!(matches!(e, NetError::SpawnFailed(_)));
    assert_eq!(message(&e), "missing");
}

#[test]
fn scan_success_parses_records() {
    match scan_access_points(ScanAttempt::WithRescan, Ok("*:Home:WPA2:87\n :Cafe:--:40\n".to_string())) {
        ScanStep::Finished(Ok(aps)) => {
            assert_eq!(aps.len(), 2);
            assert_eq!(aps[0].ssid, "Home");
            assert_eq!(aps[1].ssid, "Cafe");
        }
        other => panic!("unexpected step {:?}", other),
    }
}

#[test]
fn scan_rescan_failure_retries_once_without_rescan() {
    let err = failed("Error: invalid extra argument '--rescan'.");
    match scan_access_points(ScanAttempt::WithRescan, Err(err)) {
        ScanStep::Retry(args) => assert_eq!(args, scan_args(ScanAttempt::WithoutRescan)),
        other => panic!("unexpected step {:?}", other),
    }
    let again = failed("Error: invalid extra argument '--rescan'.");
    match scan_access_points(ScanAttempt::WithoutRescan, Err(again)) {
        ScanStep::Finished(Err(e)) => assert!(message(&e).contains("rescan")),
        other => panic!("unexpected step {:?}", other),
    }
}

#[test]
fn scan_fallback_success() {
    match scan_access_points(ScanAttempt::WithoutRescan, Ok(" :Net:WPA2:50".to_string())) {
        ScanStep::Finished(Ok(aps)) => assert_eq!(aps[0].ssid, "Net"),
        other => panic!("unexpected step {:?}", other),
    }
}

#[test]
fn scan_other_failure_does_not_retry() {
    match scan_access_points(ScanAttempt::WithRescan, Err(failed("Error: NetworkManager is not running."))) {
        ScanStep::Finished(Err(e)) => assert_eq!(message(&e), "Error: NetworkManager is not running."),
        other => panic!("unexpected step {:?}", other),
    }
    match scan_access_points(ScanAttempt::WithRescan, Err(NetError::SpawnFailed("rescan".to_string()))) {
        ScanStep::Finished(Err(e)) => assert!(matches!(e, NetError::SpawnFailed(_))),
        other => panic!("unexpected step {:?}", other),
    }
}
