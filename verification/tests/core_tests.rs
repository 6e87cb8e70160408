use droidrun::coord::{bounds_to_normalized, to_absolute, to_normalized};
use droidrun::error::DroidrunError;
use droidrun::filter::{ConciseFilter, TreeFilter};
use droidrun::formatter::{flatten_with_index, format_node, format_phone_state};
use droidrun::geometry::{find_clear_point, Bounds};
use droidrun::json::{json_equal, JsonValue};
use droidrun::manager::version_in_range;
use droidrun::portal::{extract_packages_list, parse_content_provider_output, unwrap_portal_response};
use droidrun::search::{clickable, flatten_tree, has_text, id_matches, text_matches};
use droidrun::state::{Element, PhoneState, ScreenDimensions, UIState};

fn from_value(v: serde_json::Value) -> JsonValue {
    match v {
        serde_json::Value::Null => JsonValue::Null,
        serde_json::Value::Bool(b) => JsonValue::Bool(b),
        serde_json::Value::Number(n) => JsonValue::Number(n.as_i64(), n.to_string()),
        serde_json::Value::String(s) => JsonValue::Str(s),
        serde_json::Value::Array(a) => JsonValue::Array(a.into_iter().map(from_value).collect()),
        serde_json::Value::Object(o) => {
            JsonValue::Object(o.into_iter().map(|(k, x)| (k, from_value(x))).collect())
        }
    }
}

fn json(text: &str) -> JsonValue {
    from_value(serde_json::from_str(text).expect("test JSON parses"))
}

// ── portal client ─────────────────────────────────────────────────

#[test]
fn test_parse_content_provider_result_format() {
    let raw = r#"Row: 0 result={"status":"success","result":{"a11y_tree":{},"phone_state":{}}}"#;
    let parsed = parse_content_provider_output(raw).unwrap();
    assert!(parsed.get("a11y_tree").is_some());
    assert!(parsed.get("phone_state").is_some());
}

#[test]
fn test_parse_content_provider_direct_json() {
    let raw = r#"{"status":"success","result":"1.2.3"}"#;
    let parsed = parse_content_provider_output(raw).unwrap();
    assert_eq!(parsed.as_str().unwrap(), "1.2.3");
}

#[test]
fn test_parse_content_provider_nested_json_string() {
    let raw = r#"Row: 0 result={"status":"success","result":"{\"key\":\"value\"}"}"#;
    let parsed = parse_content_provider_output(raw).unwrap();
    assert_eq!(parsed.get("key").unwrap().as_str().unwrap(), "value");
}

#[test]
fn test_parse_content_provider_empty() {
    let parsed = parse_content_provider_output("No result found.");
    assert!(parsed.is_none());
}

#[test]
fn test_unwrap_portal_response_with_result() {
    let data = json(r#"{"status": "success", "result": {"foo": "bar"}}"#);
    let unwrapped = unwrap_portal_response(data);
    assert_eq!(unwrapped.get("foo").unwrap().as_str().unwrap(), "bar");
}

#[test]
fn test_unwrap_portal_response_with_data() {
    let data = json(r#"{"status": "success", "data": [1, 2, 3]}"#);
    let unwrapped = unwrap_portal_response(data);
    assert_eq!(unwrapped.as_array().unwrap().len(), 3);
}

#[test]
fn test_unwrap_portal_response_plain() {
    let data = json(r#"{"foo": "bar"}"#);
    let unwrapped = unwrap_portal_response(data.clone());
    assert!(json_equal(&unwrapped, &data));
}

#[test]
fn test_extract_packages_list_direct_array() {
    let data = json(r#"[{"packageName": "com.example", "label": "Example"}]"#);
    let list = extract_packages_list(&data).unwrap();
    assert_eq!(list.len(), 1);
}

#[test]
fn test_extract_packages_list_wrapped() {
    let data = json(r#"{"packages": [{"packageName": "com.test", "label": "Test"}]}"#);
    let list = extract_packages_list(&data).unwrap();
    assert_eq!(list.len(), 1);
}

// ── portal manager ────────────────────────────────────────────────

#[test]
fn test_version_in_range_exact() {
    assert!(version_in_range("0.4.5", "0.4.0-0.4.14"));
}

#[test]
fn test_version_in_range_start() {
    assert!(version_in_range("0.4.0", "0.4.0-0.4.14"));
}

#[test]
fn test_version_in_range_end() {
    assert!(version_in_range("0.4.14", "0.4.0-0.4.14"));
}

#[test]
fn test_version_out_of_range() {
    assert!(!version_in_range("0.5.0", "0.4.0-0.4.14"));
    assert!(!version_in_range("0.3.9", "0.4.0-0.4.14"));
}

#[test]
fn test_version_in_range_no_dash() {
    assert!(!version_in_range("0.4.0", "0.4.0"));
}

// ── coordinates ───────────────────────────────────────────────────

#[test]
fn test_to_absolute() {
    let (x, y) = to_absolute(500, 500, 1080, 2400).unwrap();
    assert_eq!(x, 540);
    assert_eq!(y, 1200);
}

#[test]
fn test_to_absolute_zero() {
    let (x, y) = to_absolute(0, 0, 1080, 2400).unwrap();
    assert_eq!(x, 0);
    assert_eq!(y, 0);
}

#[test]
fn test_to_absolute_max() {
    let (x, y) = to_absolute(1000, 1000, 1080, 2400).unwrap();
    assert_eq!(x, 1080);
    assert_eq!(y, 2400);
}

#[test]
fn test_to_normalized() {
    let (x, y) = to_normalized(540, 1200, 1080, 2400).unwrap();
    assert_eq!(x, 500);
    assert_eq!(y, 500);
}

#[test]
fn test_bounds_to_normalized() {
    let result = bounds_to_normalized("0,0,1080,2400", 1080, 2400).unwrap();
    assert_eq!(result, "0,0,1000,1000");
}

#[test]
fn test_invalid_dimensions() {
    assert!(to_absolute(500, 500, 0, 0).is_err());
}

#[test]
fn test_invalid_bounds_format() {
    assert!(bounds_to_normalized("invalid", 1080, 2400).is_err());
}

// ── filter ────────────────────────────────────────────────────────

#[test]
fn test_concise_filter_keeps_visible() {
    let tree = json(r#"{"boundsInScreen": {"left": 0, "top": 0, "right": 100, "bottom": 100}, "children": []}"#);
    let ctx = json(r#"{"screen_bounds": {"width": 1080, "height": 2400}}"#);
    assert!(ConciseFilter.filter(&tree, &ctx).is_some());
}

#[test]
fn test_concise_filter_removes_offscreen() {
    let tree = json(r#"{"boundsInScreen": {"left": -200, "top": -200, "right": -100, "bottom": -100}, "children": []}"#);
    let ctx = json(r#"{"screen_bounds": {"width": 1080, "height": 2400}}"#);
    assert!(ConciseFilter.filter(&tree, &ctx).is_none());
}

#[test]
fn test_concise_filter_removes_tiny() {
    let tree = json(r#"{"boundsInScreen": {"left": 0, "top": 0, "right": 3, "bottom": 3}, "children": []}"#);
    let ctx = json(r#"{"screen_bounds": {"width": 1080, "height": 2400}}"#);
    assert!(ConciseFilter.filter(&tree, &ctx).is_none());
}

#[test]
fn test_concise_filter_preserves_hierarchy() {
    let tree = json(
        r#"{
            "boundsInScreen": {"left": 0, "top": 0, "right": 500, "bottom": 500},
            "children": [
                {"boundsInScreen": {"left": 10, "top": 10, "right": 200, "bottom": 200}, "children": []},
                {"boundsInScreen": {"left": -100, "top": -100, "right": -50, "bottom": -50}, "children": []}
            ]
        }"#,
    );
    let ctx = json(r#"{"screen_bounds": {"width": 1080, "height": 2400}}"#);
    let result = ConciseFilter.filter(&tree, &ctx).unwrap();
    let children = result.get("children").unwrap().as_array().unwrap();
    assert_eq!(children.len(), 1);
}

// ── formatter ─────────────────────────────────────────────────────

#[test]
fn test_format_phone_state() {
    let ps = PhoneState {
        current_app: "Settings".into(),
        package_name: "com.android.settings".into(),
        is_editable: false,
        focused_element: None,
    };
    let text = format_phone_state(&ps);
    assert!(text.contains("Settings"));
    assert!(text.contains("Hidden"));
}

#[test]
fn test_format_phone_state_with_keyboard() {
    let ps = PhoneState {
        current_app: "Chrome".into(),
        package_name: "com.android.chrome".into(),
        is_editable: true,
        focused_element: Some(json(r#"{"text": "Search"}"#)),
    };
    let text = format_phone_state(&ps);
    assert!(text.contains("Visible"));
    assert!(text.contains("'Search'"));
}

#[test]
fn test_flatten_with_index() {
    let tree = json(
        r#"{
            "className": "android.widget.FrameLayout",
            "boundsInScreen": {"left": 0, "top": 0, "right": 1080, "bottom": 2400},
            "children": [
                {
                    "className": "android.widget.Button",
                    "text": "OK",
                    "boundsInScreen": {"left": 100, "top": 200, "right": 300, "bottom": 400},
                    "children": []
                }
            ]
        }"#,
    );
    let mut counter = 1;
    let elements = flatten_with_index(&tree, &mut counter, 1080, 2400, false);
    assert_eq!(elements.len(), 2);
    assert_eq!(elements[0].index, 1);
    assert_eq!(elements[0].class_name, "FrameLayout");
    assert_eq!(elements[1].index, 2);
    assert_eq!(elements[1].text, "OK");
}

#[test]
fn test_format_node_normalized() {
    let node = json(
        r#"{
            "className": "android.widget.Button",
            "text": "Submit",
            "boundsInScreen": {"left": 0, "top": 0, "right": 1080, "bottom": 2400}
        }"#,
    );
    let el = format_node(&node, 1, 1080, 2400, true);
    assert_eq!(el.bounds, "0,0,1000,1000");
}

// ── geometry ──────────────────────────────────────────────────────

#[test]
fn test_bounds_center() {
    let b = Bounds::new(0, 0, 100, 200);
    assert_eq!(b.center(), (50, 100));
}

#[test]
fn test_bounds_from_str() {
    let b = Bounds::from_str("10,20,30,40").unwrap();
    assert_eq!(b, Bounds::new(10, 20, 30, 40));
}

#[test]
fn test_bounds_from_str_invalid() {
    assert!(Bounds::from_str("10,20").is_none());
    assert!(Bounds::from_str("abc").is_none());
}

#[test]
fn test_overlaps() {
    let a = Bounds::new(0, 0, 100, 100);
    let b = Bounds::new(50, 50, 150, 150);
    assert!(a.overlaps(&b));
    assert!(b.overlaps(&a));
}

#[test]
fn test_no_overlap() {
    let a = Bounds::new(0, 0, 100, 100);
    let b = Bounds::new(100, 100, 200, 200);
    assert!(!a.overlaps(&b));
}

#[test]
fn test_contains_point() {
    let b = Bounds::new(0, 0, 100, 100);
    assert!(b.contains_point(50, 50));
    assert!(!b.contains_point(100, 100));
    assert!(!b.contains_point(-1, 50));
}

#[test]
fn test_find_clear_point_no_blockers() {
    let bounds = Bounds::new(0, 0, 200, 200);
    let point = find_clear_point(&bounds, &[]).unwrap();
    assert_eq!(point, (100, 100));
}

#[test]
fn test_find_clear_point_blocked_center() {
    let bounds = Bounds::new(0, 0, 200, 200);
    let blocker = Bounds::new(90, 90, 110, 110);
    let point = find_clear_point(&bounds, &[blocker]).unwrap();
    assert!(!blocker.contains_point(point.0, point.1));
}

#[test]
fn test_find_clear_point_fully_blocked() {
    let bounds = Bounds::new(0, 0, 10, 10);
    let blocker = Bounds::new(0, 0, 10, 10);
    let point = find_clear_point(&bounds, &[blocker]);
    assert!(point.is_none());
}

#[test]
fn test_bounds_dimensions() {
    let b = Bounds::new(10, 20, 110, 220);
    assert_eq!(b.width(), 100);
    assert_eq!(b.height(), 200);
    assert_eq!(b.area(), 20000);
}

// ── search ────────────────────────────────────────────────────────

fn sample_tree() -> Vec<JsonValue> {
    vec![json(
        r#"{
            "text": "Hello World",
            "className": "android.widget.TextView",
            "resourceId": "com.example:id/title",
            "isClickable": false,
            "boundsInScreen": {"left": 0, "top": 0, "right": 500, "bottom": 100},
            "children": [
                {
                    "text": "OK",
                    "className": "android.widget.Button",
                    "resourceId": "com.example:id/btn_ok",
                    "isClickable": true,
                    "boundsInScreen": {"left": 100, "top": 200, "right": 300, "bottom": 300},
                    "children": []
                },
                {
                    "text": "Cancel",
                    "className": "android.widget.Button",
                    "resourceId": "com.example:id/btn_cancel",
                    "isClickable": true,
                    "boundsInScreen": {"left": 400, "top": 200, "right": 600, "bottom": 300},
                    "children": []
                }
            ]
        }"#,
    )]
}

#[test]
fn test_text_matches() {
    let filter = text_matches("OK");
    let results = filter.apply(&sample_tree());
    assert_eq!(results.len(), 1);
    assert_eq!(results[0].get("text").unwrap().as_str().unwrap(), "OK");
}

#[test]
fn test_id_matches_short() {
    let filter = id_matches("btn_ok");
    let results = filter.apply(&sample_tree());
    assert_eq!(results.len(), 1);
}

#[test]
fn test_clickable() {
    let results = clickable().apply(&sample_tree());
    assert_eq!(results.len(), 2);
}

#[test]
fn test_has_text() {
    let results = has_text().apply(&sample_tree());
    assert_eq!(results.len(), 3);
}

#[test]
fn test_flatten_tree() {
    let flat = flatten_tree(&sample_tree()[0]);
    assert_eq!(flat.len(), 3);
}

// ── state ─────────────────────────────────────────────────────────

fn leaf(index: usize, class_name: &str, resource_id: &str, text: &str, bounds: &str) -> Element {
    Element {
        index,
        class_name: class_name.into(),
        resource_id: resource_id.into(),
        text: text.into(),
        bounds: bounds.into(),
        checked_state: String::new(),
        children: vec![],
    }
}

fn sample_elements() -> Vec<Element> {
    let mut second = leaf(2, "TextView", "", "Hello", "0,0,1080,100");
    second.children = vec![leaf(3, "ImageView", "icon", "", "10,10,50,50")];
    vec![leaf(1, "Button", "btn_ok", "OK", "100,200,300,400"), second]
}

fn sample_state() -> UIState {
    UIState::new(
        sample_elements(),
        "formatted".into(),
        "focused".into(),
        PhoneState::default(),
        ScreenDimensions { width: 1080, height: 2400 },
        false,
    )
}

#[test]
fn test_get_element() {
    let state = sample_state();
    assert!(state.get_element(1).is_some());
    assert_eq!(state.get_element(1).unwrap().text, "OK");
}

#[test]
fn test_get_element_nested() {
    let state = sample_state();
    let el = state.get_element(3).unwrap();
    assert_eq!(el.class_name, "ImageView");
}

#[test]
fn test_get_element_not_found() {
    let state = sample_state();
    assert!(state.get_element(999).is_none());
}

#[test]
fn test_get_element_coords() {
    let state = sample_state();
    let (x, y) = state.get_element_coords(1).unwrap();
    assert_eq!((x, y), (200, 300));
}

#[test]
fn test_all_indices() {
    let state = sample_state();
    assert_eq!(state.all_indices(), vec![1, 2, 3]);
}

#[test]
fn test_convert_point_absolute() {
    let state = sample_state();
    let (x, y) = state.convert_point(540, 1200).unwrap();
    assert_eq!((x, y), (540, 1200));
}

#[test]
fn test_convert_point_normalized() {
    let mut state = sample_state();
    state.use_normalized = true;
    let (x, y) = state.convert_point(500, 500).unwrap();
    assert_eq!((x, y), (540, 1200));
}

// ── further cases ─────────────────────────────────────────────────

#[test]
fn element_errors_name_the_index() {
    let mut elements = sample_elements();
    elements.push(leaf(4, "View", "", "", ""));
    elements.push(leaf(5, "View", "", "", "1,2"));
    let state = UIState::new(
        elements,
        String::new(),
        String::new(),
        PhoneState::default(),
        ScreenDimensions { width: 1080, height: 2400 },
        false,
    );
    assert!(matches!(state.get_element_coords(99), Err(DroidrunError::ElementNotFound(99))));
    assert!(matches!(state.get_element_coords(4), Err(DroidrunError::ElementNoBounds(4))));
    match state.get_element_coords(5) {
        Err(DroidrunError::InvalidBounds(b)) => assert_eq!(b, "1,2"),
        other => panic!("unexpected: {:?}", other),
    }
    assert_eq!(
        DroidrunError::ElementObscured(7).to_string(),
        "Element 7 is fully obscured"
    );
}

#[test]
fn clear_point_avoids_later_elements() {
    // element 2 covers the center of element 1
    let elements = vec![
        leaf(1, "Button", "", "", "0,0,200,200"),
        leaf(2, "Overlay", "", "", "90,90,110,110"),
    ];
    let state = UIState::new(
        elements,
        String::new(),
        String::new(),
        PhoneState::default(),
        ScreenDimensions { width: 1080, height: 2400 },
        false,
    );
    let (x, y) = state.get_clear_point(1).unwrap();
    assert!(!Bounds::new(90, 90, 110, 110).contains_point(x, y));
    // the overlay itself is not obscured by anything after it
    assert_eq!(state.get_clear_point(2).unwrap(), (100, 100));
}

#[test]
fn normalized_mode_without_dimensions_fails() {
    let mut state = sample_state();
    state.use_normalized = true;
    state.screen = ScreenDimensions { width: 0, height: 0 };
    assert!(matches!(state.convert_point(1, 1), Err(DroidrunError::NoDimensions)));
}

#[test]
fn info_copies_the_element_fields() {
    let state = sample_state();
    let info = state.get_element_info(3).unwrap();
    assert_eq!(info.class_name, "ImageView");
    assert_eq!(info.bounds, "10,10,50,50");
    assert!(state.get_element_info(42).is_none());
}

#[test]
fn bounds_text_round_trips() {
    let b = Bounds::new(-5, 7, 300, 2400);
    assert_eq!(Bounds::from_str(&b.to_string()), Some(b));
}

#[test]
fn text_matching_reads_newlines_as_spaces() {
    let nodes = vec![json(r#"{"text": "Sign\nin", "children": []}"#)];
    assert_eq!(text_matches("Sign in").apply(&nodes).len(), 1);
    assert_eq!(text_matches("").apply(&nodes).len(), 1);
    assert_eq!(text_matches("out").apply(&nodes).len(), 0);
}
