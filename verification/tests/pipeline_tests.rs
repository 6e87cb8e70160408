use droidrun::driver::{
    android_supported_actions, package_flags, start_failure_message, Action, ActionLog,
    RecordedAction,
};
use droidrun::adb_error::AdbError;
use droidrun::error::DroidrunError;
use droidrun::filter::ConciseFilter;
use droidrun::formatter::{
    format_elements, format_ui_elements_text, get_focused_text, parse_phone_state, IndexedFormatter, TreeFormatter,
};
use droidrun::json::{json_equal, JsonValue};
use droidrun::manager::{
    after_version_check, apk_url, choose_portal_version, first_ready_step, parse_portal_version,
    ReadyStep,
};
use droidrun::models::ForwardEntry;
use droidrun::portal::{
    after_tcp_ping, TcpPing, TcpSetupStep,
    apps_from_output, find_forward_port, parse_content_provider_output, input_text_command, keyboard_payload, ping_from_output,
    screenshot_from_reply, screenshot_url, state_from_output, tcp_base_url, version_from_output,
};
use droidrun::provider::{after_attempt, AndroidStateProvider, RetryAction};
use droidrun::search::{below, compose, get_element_center, text_matches};
use droidrun::state::Element;

fn from_value(v: serde_json::Value) -> JsonValue {
    match v {
        serde_json::Value::Null => JsonValue::Null,
        serde_json::Value::Bool(b) => JsonValue::Bool(b),
        serde_json::Value::Number(n) => JsonValue::Number(n.as_i64(), n.to_string()),
        serde_json::Value::String(s) => JsonValue::Str(s),
        serde_json::Value::Array(a) => JsonValue::Array(a.into_iter().map(from_value).collect()),
        serde_json::Value::Object(o) => {
            JsonValue::Object(o.into_iter().map(|(k, x)| (k, from_value(x))).collect())
        }
    }
}

fn json(text: &str) -> JsonValue {
    from_value(serde_json::from_str(text).expect("test JSON parses"))
}

#[test]
fn json_values_read_numbers_and_objects() {
    let v = json(r#"{"a": 5, "b": [true, null, "x"], "c": 1.5}"#);
    assert_eq!(v.get("a").unwrap().as_i64(), Some(5));
    assert_eq!(v.get("b").unwrap().as_array().unwrap().len(), 3);
    assert_eq!(v.get("c").unwrap().as_i64(), None);
    assert!(v.get("missing").is_none());
    assert!(parse_content_provider_output("Row: 0 result={oops").is_none());
    let read = parse_content_provider_output("Row: 0 result={\"a\": 5, \"b\": [true]}").unwrap();
    assert_eq!(read.get("a").unwrap().as_i64(), Some(5));
    assert_eq!(read.get("b").unwrap().as_array().unwrap().len(), 1);
    assert!(json_equal(&v, &v.clone()));
    assert!(!json_equal(&v, &json(r#"{"a": 6}"#)));
}

#[test]
fn below_orders_by_distance() {
    let nodes = vec![json(
        r#"{
            "text": "Anchor", "boundsInScreen": {"left": 0, "top": 0, "right": 100, "bottom": 100},
            "children": [
                {"text": "far", "boundsInScreen": {"left": 0, "top": 900, "right": 100, "bottom": 1000}, "children": []},
                {"text": "near", "boundsInScreen": {"left": 0, "top": 200, "right": 100, "bottom": 300}, "children": []},
                {"text": "beside", "boundsInScreen": {"left": 300, "top": 0, "right": 400, "bottom": 100}, "children": []}
            ]
        }"#,
    )];
    let found = below(text_matches("Anchor")).apply(&nodes);
    assert_eq!(found.len(), 2);
    assert_eq!(found[0].get("text").unwrap().as_str(), Some("near"));
    assert_eq!(found[1].get("text").unwrap().as_str(), Some("far"));
    assert!(below(text_matches("nothing")).apply(&nodes).is_empty());
    assert_eq!(get_element_center(&found[0]), (50, 250));
}

#[test]
fn compose_stops_at_empty() {
    let nodes = vec![json(r#"{"text": "OK", "isClickable": true, "children": []}"#)];
    let both = compose(vec![text_matches("OK"), droidrun::search::clickable()]);
    assert_eq!(both.apply(&nodes).len(), 1);
    let none = compose(vec![text_matches("zzz"), droidrun::search::clickable()]);
    assert!(none.apply(&nodes).is_empty());
    assert_eq!(compose(vec![]).apply(&nodes).len(), 1);
}

#[test]
fn apps_are_read_from_package_output() {
    let raw = r#"Row: 0 result={"status":"success","result":[{"packageName":"com.a","label":"A","isSystemApp":false},{"packageName":"com.sys","label":"S","isSystemApp":true},{"packageName":"com.b","label":"B"}]}"#;
    let user = apps_from_output(raw, false).unwrap();
    assert_eq!(user.len(), 1);
    assert_eq!(user[0].package, "com.a");
    let all = apps_from_output(raw, true).unwrap();
    assert_eq!(all.len(), 3);
    assert_eq!(all[2].label, "B");
    assert!(matches!(apps_from_output("garbage", true), Err(DroidrunError::Parse(_))));
    assert!(apps_from_output(r#"{"other": 1}"#, true).unwrap().is_empty());
}

#[test]
fn version_and_ping_and_state_replies() {
    assert_eq!(version_from_output(r#"Row: 0 result={"status":"success","result":"0.4.7"}"#), "0.4.7");
    assert_eq!(version_from_output("nothing"), "unknown");
    assert_eq!(parse_portal_version(r#"{"result":"1.0.0"}"#).as_deref(), Some("1.0.0"));
    let ok = ping_from_output("Row: 0 result={}").unwrap();
    assert_eq!(ok.get("method").unwrap().as_str(), Some("content_provider"));
    assert!(matches!(ping_from_output(""), Err(DroidrunError::PortalCommError(_))));
    assert!(state_from_output(r#"Row: 0 result={"a11y_tree":{}}"#).is_ok());
    assert!(matches!(state_from_output("no"), Err(DroidrunError::Parse(_))));
}

#[test]
fn screenshot_reply_is_decoded() {
    let ok = json(r#"{"status": "success", "result": "aGVsbG8="}"#);
    assert_eq!(screenshot_from_reply(&ok).unwrap(), b"hello".to_vec());
    let bad = json(r#"{"status": "error"}"#);
    assert!(matches!(screenshot_from_reply(&bad), Err(DroidrunError::PortalCommError(_))));
    let garbled = json(r#"{"status": "success", "result": "!!"}"#);
    match screenshot_from_reply(&garbled) {
        Err(DroidrunError::Parse(m)) => assert!(m.starts_with("base64 decode error: ")),
        other => panic!("unexpected: {:?}", other),
    }
    let empty = json(r#"{"status": "success"}"#);
    assert!(matches!(screenshot_from_reply(&empty), Err(DroidrunError::Parse(_))));
}

#[test]
fn keyboard_commands_carry_base64() {
    assert_eq!(
        input_text_command("hi", true),
        "content insert --uri \"content://com.droidrun.portal/keyboard/input\" --bind base64_text:s:\"aGk=\" --bind clear:b:true"
    );
    let p = keyboard_payload("hi", false);
    assert_eq!(p.get("base64_text").unwrap().as_str(), Some("aGk="));
    assert_eq!(p.get("clear").unwrap().as_bool(), Some(false));
}

#[test]
fn urls_and_forwards() {
    assert_eq!(tcp_base_url(27183), "http://localhost:27183");
    assert_eq!(screenshot_url("http://h", false), "http://h/screenshot?hideOverlay=false");
    assert_eq!(screenshot_url("http://h", true), "http://h/screenshot");
    let forwards = vec![
        ForwardEntry { serial: "s".into(), local: "tcp:1111".into(), remote: "tcp:9999".into() },
        ForwardEntry { serial: "s".into(), local: "tcp:2222".into(), remote: "tcp:8080".into() },
    ];
    assert_eq!(find_forward_port(&forwards, 8080), Some(2222));
    assert_eq!(find_forward_port(&forwards, 7000), None);
}

#[test]
fn portal_version_choice() {
    let m = vec![
        ("0.5.1".to_string(), "v1.2.0".to_string()),
        ("0.4.0-0.4.14".to_string(), "v1.0.0".to_string()),
    ];
    assert_eq!(choose_portal_version("0.5.1", &m, "base").unwrap().0, "v1.2.0");
    assert_eq!(choose_portal_version("0.4.3", &m, "base").unwrap().0, "v1.0.0");
    assert_eq!(choose_portal_version("9.9.9", &m, "base").unwrap(), ("v1.0.0".to_string(), "base".to_string()));
    assert!(matches!(choose_portal_version("1", &vec![], "b"), Err(DroidrunError::PortalSetupFailed(_))));
    assert_eq!(apk_url("https://x", "v1.0.0"), "https://x/v1.0.0/droidrun-portal-v1.0.0.apk");
}

#[test]
fn readiness_steps() {
    assert_eq!(first_ready_step(None, None, None), ReadyStep::Skip);
    let none: Vec<String> = vec![];
    assert_eq!(first_ready_step(Some(&none), None, None), ReadyStep::Setup);
    let pkgs = vec!["com.droidrun.portal".to_string()];
    let svc = "com.droidrun.portal/com.droidrun.portal.service.DroidrunAccessibilityService";
    assert_eq!(
        first_ready_step(Some(&pkgs), Some(r#"Row: 0 result={"result":"1.0.0"}"#), Some(svc)),
        ReadyStep::CheckVersion { installed: "1.0.0".to_string(), a11y_enabled: true }
    );
    assert_eq!(first_ready_step(Some(&pkgs), None, Some("")), ReadyStep::EnableAccessibility);
    assert_eq!(first_ready_step(Some(&pkgs), None, Some(svc)), ReadyStep::Ready);
    assert_eq!(after_version_check("1.0.0", Some("v1.0.0"), true), ReadyStep::Ready);
    assert_eq!(after_version_check("0.9.0", Some("v1.0.0"), true), ReadyStep::Setup);
    assert_eq!(after_version_check("0.9.0", None, false), ReadyStep::EnableAccessibility);
}

#[test]
fn action_log_records_in_order_and_clears() {
    let mut log = ActionLog::new();
    log.record(RecordedAction::Tap { x: 1, y: 2 });
    log.record(RecordedAction::InputText { text: "hi".into(), clear: false });
    let got = log.recorded_actions();
    assert_eq!(got.len(), 2);
    assert!(matches!(got[0], RecordedAction::Tap { x: 1, y: 2 }));
    log.clear_log();
    assert_eq!(log.len(), 0);
    assert!(log.recorded_actions().is_empty());
}

#[test]
fn driver_helpers() {
    let actions = android_supported_actions();
    assert_eq!(actions.len(), 12);
    assert!(actions.contains(&Action::Drag));
    assert_eq!(package_flags(false), vec!["-3"]);
    assert!(package_flags(true).is_empty());
    assert_eq!(
        start_failure_message("com.x", &AdbError::ShellError("boom".into())),
        "Failed to start app com.x: Shell command failed: boom"
    );
}

#[test]
fn retry_policy() {
    assert_eq!(after_attempt(1, true), RetryAction::Return);
    assert_eq!(after_attempt(1, false), RetryAction::RetryAfterDelay);
    assert_eq!(after_attempt(3, false), RetryAction::GiveUp);
}

#[test]
fn phone_state_is_read_like_serde() {
    let ps = parse_phone_state(&json(
        r#"{"currentApp": "Chrome", "packageName": "com.android.chrome", "isEditable": true, "focusedElement": {"text": "q"}}"#,
    ));
    assert_eq!(ps.current_app, "Chrome");
    assert!(ps.is_editable);
    assert!(ps.focused_element.is_some());
    let wrong = parse_phone_state(&json(r#"{"currentApp": 5}"#));
    assert_eq!(wrong.current_app, "");
    assert!(!wrong.is_editable);
    assert_eq!(get_focused_text(&json(r#"{"focusedElement": {"text": "typed"}}"#)), "typed");
    assert_eq!(get_focused_text(&json(r#"{}"#)), "");
}

#[test]
fn element_list_text() {
    let el = Element {
        index: 3,
        class_name: "Button".into(),
        resource_id: "ok".into(),
        text: "OK".into(),
        bounds: "1,2,3,4".into(),
        checked_state: "isChecked=False".into(),
        children: vec![],
    };
    let text = format_ui_elements_text(&[el], false);
    assert!(text.ends_with("3. Button: \"ok\", \"OK\" ; isChecked=False - (1,2,3,4)"));
    let empty = format_ui_elements_text(&[], true);
    assert!(empty.ends_with("No UI elements found"));
    assert!(empty.contains("(normalized [0-1000])"));
}

#[test]
fn provider_builds_the_state() {
    let provider = AndroidStateProvider::new(ConciseFilter, IndexedFormatter, false);
    let combined = json(
        r#"{
            "a11y_tree": {"className": "android.widget.FrameLayout", "boundsInScreen": {"left": 0, "top": 0, "right": 1080, "bottom": 2400},
                          "children": [{"className": "a.Button", "text": "OK", "boundsInScreen": {"left": 10, "top": 10, "right": 200, "bottom": 200}, "children": []}]},
            "phone_state": {"currentApp": "Demo", "packageName": "com.demo", "isEditable": false},
            "device_context": {"screen_bounds": {"width": 1080, "height": 2400}}
        }"#,
    );
    let state = provider.process_state(&combined).unwrap();
    assert_eq!(state.elements.len(), 2);
    assert_eq!(state.elements[1].text, "OK");
    assert_eq!(state.screen.width, 1080);
    assert!(state.formatted_text.contains("Demo"));
    let err = provider.process_state(&json(r#"{"error": true, "message": "boom"}"#));
    match err {
        Err(DroidrunError::PortalCommError(m)) => assert_eq!(m, "Portal returned error: boom"),
        other => panic!("unexpected: {:?}", other.map(|s| s.elements.len())),
    }
    match provider.process_state(&json(r#"{"a11y_tree": {}}"#)) {
        Err(DroidrunError::Parse(m)) => assert_eq!(m, "Missing data in state: phone_state"),
        other => panic!("unexpected: {:?}", other.map(|s| s.elements.len())),
    }
    let (_, focused, elements, _) =
        IndexedFormatter.format(None, &json(r#"{"focusedElement": {"text": "f"}}"#), 1, 1, false);
    assert_eq!(focused, "f");
    assert!(elements.is_empty());
}

/// Runs the retry policy over attempts that succeed where `ok` says so, and
/// returns the attempt the loop stops at.
fn stop_attempt(ok: &[bool]) -> u32 {
    let mut attempt = 1;
    loop {
        match after_attempt(attempt, ok[attempt as usize - 1]) {
            RetryAction::RetryAfterDelay => attempt += 1,
            _ => return attempt,
        }
    }
}

#[test]
fn retry_stops_at_first_success_or_third_attempt() {
    assert_eq!(stop_attempt(&[true, true, true]), 1);
    assert_eq!(stop_attempt(&[false, true, false]), 2);
    assert_eq!(stop_attempt(&[false, false, true]), 3);
    assert_eq!(stop_attempt(&[false, false, false, true]), 3);
}

fn node(index: usize, bounds: &str, children: Vec<Element>) -> Element {
    Element {
        index,
        class_name: "View".to_string(),
        resource_id: String::new(),
        text: String::new(),
        bounds: bounds.to_string(),
        checked_state: String::new(),
        children,
    }
}

#[test]
fn element_listing_has_one_line_per_element_in_preorder() {
    let forest = vec![
        node(1, "0,0,10,10", vec![node(2, "", vec![node(3, "1,1,2,2", vec![])])]),
        node(4, "5,5,6,6", vec![]),
    ];
    let text = format_elements(&forest, 1);
    let lines: Vec<&str> = text.lines().collect();
    assert_eq!(
        lines,
        vec![
            "  1. View: - (0,0,10,10)",
            "    2. View:",
            "      3. View: - (1,1,2,2)",
            "  4. View: - (5,5,6,6)",
        ]
    );
    assert_eq!(format_elements(&[], 0), "");
}

#[test]
fn keyboard_base64_pads_and_groups() {
    let p = keyboard_payload("hello", false);
    assert_eq!(p.get("base64_text").unwrap().as_str(), Some("aGVsbG8="));
    let q = keyboard_payload("héllo!", false);
    assert_eq!(q.get("base64_text").unwrap().as_str(), Some("aMOpbGxvIQ=="));
}

#[test]
fn tcp_setup_pings_twice_at_most() {
    assert!(matches!(after_tcp_ping(TcpPing::First, true), TcpSetupStep::Enabled));
    assert!(matches!(after_tcp_ping(TcpPing::First, false), TcpSetupStep::StartServerAndPingAgain));
    assert!(matches!(after_tcp_ping(TcpPing::AfterServerStart, true), TcpSetupStep::Enabled));
    match after_tcp_ping(TcpPing::AfterServerStart, false) {
        TcpSetupStep::Unavailable(DroidrunError::PortalCommError(m)) => {
            assert_eq!(m, "TCP unavailable after enabling server")
        }
        other => panic!("unexpected {other:?}"),
    }
}

#[test]
fn formatter_input_check_catches_unscalable_bounds() {
    let huge = json(
        r#"{"className": "a.View", "boundsInScreen": {"left": 0, "top": 0, "right": 10, "bottom": 10},
            "children": [{"className": "a.View", "boundsInScreen": {"left": 3000000, "top": 0, "right": 3000100, "bottom": 100}}]}"#,
    );
    assert!(!IndexedFormatter.accepts_input(Some(&huge), 1080, 2400, true));
    assert!(IndexedFormatter.accepts_input(Some(&huge), 1080, 2400, false));
    assert!(IndexedFormatter.accepts_input(Some(&huge), 0, 2400, true));
    assert!(IndexedFormatter.accepts_input(None, 1080, 2400, true));
    let normalized = AndroidStateProvider::new(ConciseFilter, IndexedFormatter, true);
    let combined = json(
        r#"{"a11y_tree": {"className": "a.View", "boundsInScreen": {"left": 0, "top": 0, "right": 100, "bottom": 100}},
            "phone_state": {}, "device_context": {"screen_bounds": {"width": 1080, "height": 2400}}}"#,
    );
    assert!(normalized.ready_to_process(&combined));
    assert!(normalized.ready_to_process(&json(r#"{"error": "x"}"#)));
}
