use exchange_host::dispatch::Dispatch;
use exchange_host::runtime::Runtime;
use exchange_host::text::{decimal_string, parse_i64};
use exchange_host::watchdog::{addStatus, getStatus, message_body, message_response, postStatus, status_key_for, status_message_for, StatusReport};

#[test]
fn decimal_rendering() {
    assert_eq!(decimal_string(0), "0");
    assert_eq!(decimal_string(7), "7");
    assert_eq!(decimal_string(1700000000), "1700000000");
    assert_eq!(decimal_string(u64::MAX), "18446744073709551615");
}

#[test]
fn watchdog_texts() {
    assert_eq!(status_key_for("billing"), "/watchdog-v1/status/services/billing/timestamp");
    assert_eq!(
        status_message_for("billing", 42),
        "status for 'billing' saved for timestamp 42, thanks"
    );
    assert_eq!(message_body("\"m\""), "{\"status\":true,\"message\":\"m\"}");
}

#[test]
fn post_status_end_to_end() {
    let mut rt = Runtime::new();
    rt.plug_function("POST", "/status", "watchdog", "postStatus");
    let body = br#"{"name":"billing","message":"ok"}"#;
    let d = rt.handle_request(b"POST", b"/status", body, &Vec::new());
    assert!(matches!(d, Dispatch::Invoke { .. }));
    let report = StatusReport { name: "billing".to_string(), message: "ok".to_string() };
    let status = postStatus(&mut rt, Some(report), 1_700_000_000_123);
    assert_eq!(status, 200);
    let resp = rt.finish(Some(status));
    assert_eq!(resp.status, 200);
    assert_eq!(
        String::from_utf8(resp.body).unwrap(),
        "{\"status\":true,\"message\":\"status for 'billing' saved for timestamp 1700000000, thanks\"}"
    );
    assert_eq!(
        resp.headers,
        vec![(b"content-type".to_vec(), b"application/json".to_vec())]
    );
    assert_eq!(
        rt.persistence.get(b"/watchdog-v1/status/services/billing/timestamp"),
        Some(b"1700000000".to_vec())
    );
}

#[test]
fn post_status_escapes_the_message() {
    let mut rt = Runtime::new();
    rt.plug_function("POST", "/status", "watchdog", "postStatus");
    let _ = rt.handle_request(b"POST", b"/status", b"", &Vec::new());
    let report = StatusReport { name: "a\"b".to_string(), message: String::new() };
    assert_eq!(postStatus(&mut rt, Some(report), 5_999), 200);
    let resp = rt.finish(Some(200));
    assert_eq!(
        String::from_utf8(resp.body).unwrap(),
        "{\"status\":true,\"message\":\"status for 'a\\\"b' saved for timestamp 5, thanks\"}"
    );
}

#[test]
fn post_status_without_report_is_bad_request() {
    let mut rt = Runtime::new();
    rt.plug_function("POST", "/status", "watchdog", "postStatus");
    let _ = rt.handle_request(b"POST", b"/status", b"not json", &Vec::new());
    assert_eq!(postStatus(&mut rt, None, 1000), 400);
    let resp = rt.finish(Some(400));
    assert_eq!(resp.status, 400);
    assert_eq!(
        String::from_utf8(resp.body).unwrap(),
        "{\"status\":true,\"message\":\"cannot parse\"}"
    );
    assert!(rt.persistence.get_subset(b"/").is_empty());
}

#[test]
fn add_status_reads_the_path_parameter() {
    let mut rt = Runtime::new();
    rt.plug_function("POST", "/services/:service", "watchdog", "addStatus");
    let d = rt.handle_request(b"POST", b"/services/payments", b"", &Vec::new());
    assert!(matches!(d, Dispatch::Invoke { .. }));
    assert_eq!(addStatus(&mut rt, 42_000), 200);
    let resp = rt.finish(Some(200));
    assert_eq!(
        String::from_utf8(resp.body).unwrap(),
        "{\"status\":true,\"message\":\"status for 'payments' saved for timestamp 42, thanks\"}"
    );
    assert_eq!(
        rt.persistence.get(b"/watchdog-v1/status/services/payments/timestamp"),
        Some(b"42".to_vec())
    );
}

#[test]
fn add_status_without_parameter_is_bad_request() {
    let mut rt = Runtime::new();
    rt.plug_function("POST", "/services", "watchdog", "addStatus");
    let _ = rt.handle_request(b"POST", b"/services", b"", &Vec::new());
    assert_eq!(addStatus(&mut rt, 42_000), 400);
    assert!(rt.persistence.get_subset(b"/").is_empty());
}

#[test]
fn get_status_lists_reporting_services() {
    let mut rt = Runtime::new();
    rt.persistence_set(b"/watchdog-v1/status/services/billing/timestamp", b"1700000000");
    rt.persistence_set(b"/watchdog-v1/status/services/billing/note", b"ignored");
    rt.persistence_set(b"/watchdog-v1/status/services/mail/timestamp", b"007");
    rt.persistence_set(b"/watchdog-v1/status/services/bad/timestamp", b"soon");
    rt.persistence_set(b"/other/timestamp", b"1");
    rt.plug_function("GET", "/status", "watchdog", "getStatus");
    let _ = rt.handle_request(b"GET", b"/status", b"", &Vec::new());
    assert_eq!(getStatus(&mut rt), 200);
    let resp = rt.finish(Some(200));
    assert_eq!(
        String::from_utf8(resp.body).unwrap(),
        "{\"description\":\"everything ok\",\"services\":{\"billing\":{\"timestamp\":1700000000},\"mail\":{\"timestamp\":7}}}"
    );
}

#[test]
fn get_status_with_no_reports() {
    let mut rt = Runtime::new();
    rt.plug_function("GET", "/status", "watchdog", "getStatus");
    let _ = rt.handle_request(b"GET", b"/status", b"", &Vec::new());
    assert_eq!(getStatus(&mut rt), 200);
    let resp = rt.finish(Some(200));
    assert_eq!(
        String::from_utf8(resp.body).unwrap(),
        "{\"description\":\"everything ok\",\"services\":{}}"
    );
}

#[test]
fn message_response_escapes_control_characters() {
    let mut rt = Runtime::new();
    rt.plug_function("GET", "/m", "m", "f");
    let _ = rt.handle_request(b"GET", b"/m", b"", &Vec::new());
    assert!(message_response(&mut rt, "a\"b\\c\n\t\u{1}\u{1f}\u{8}\u{c}\ré"));
    let resp = rt.finish(Some(200));
    assert_eq!(
        String::from_utf8(resp.body).unwrap(),
        "{\"status\":true,\"message\":\"a\\\"b\\\\c\\n\\t\\u0001\\u001f\\b\\f\\ré\"}"
    );
}

#[test]
fn i64_parsing_accepts_a_sign() {
    assert_eq!(parse_i64(b"-5"), Some(-5));
    assert_eq!(parse_i64(b"+12"), Some(12));
    assert_eq!(parse_i64(b"007"), Some(7));
    assert_eq!(parse_i64(b"-9223372036854775808"), Some(i64::MIN));
    assert_eq!(parse_i64(b"9223372036854775807"), Some(i64::MAX));
    assert_eq!(parse_i64(b"9223372036854775808"), None);
    assert_eq!(parse_i64(b"-"), None);
    assert_eq!(parse_i64(b"+-1"), None);
    assert_eq!(parse_i64(b""), None);
    assert_eq!(parse_i64(b"1x"), None);
}

#[test]
fn get_status_reports_signed_times() {
    let mut rt = Runtime::new();
    rt.persistence_set(b"/watchdog-v1/status/services/x/timestamp", b"-5");
    rt.persistence_set(b"/watchdog-v1/status/services/y/timestamp", b"+12");
    rt.persistence_set(b"/watchdog-v1/status/services/z/timestamp", b"-9223372036854775808");
    rt.plug_function("GET", "/status", "watchdog", "getStatus");
    let _ = rt.handle_request(b"GET", b"/status", b"", &Vec::new());
    assert_eq!(getStatus(&mut rt), 200);
    let resp = rt.finish(Some(200));
    assert_eq!(
        String::from_utf8(resp.body).unwrap(),
        "{\"description\":\"everything ok\",\"services\":{\"x\":{\"timestamp\":-5},\"y\":{\"timestamp\":12},\"z\":{\"timestamp\":-9223372036854775808}}}"
    );
}
