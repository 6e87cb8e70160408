//! The DroidRun Portal app: its names, the shell commands that drive it, and
//! the reading of its replies (content-provider output and HTTP JSON).
use vstd::prelude::*;
use vstd::utf8::encode_utf8;

use base64::Engine;

use crate::driver::AppInfo;
use crate::error::{DroidrunError, Result};
use crate::json::{
    as_flag, as_list, as_text, item_views, jget, json_parse_result, lookup_from, parse_json,
    text_or_empty, view_opt, view_opt_owned, JsonValue, JsonView,
};
use crate::models::{tcp_port, ForwardEntry};
use crate::text::{
    chars_of, contains, contains_chars, copy_range, find, find_chars, lines, lines_of, nat_to_dec,
    push_int, push_nat, push_str, starts_with, starts_with_chars, string_of, trim, trim_chars,
    views,
};

verus! {

/// Portal APK package name.
pub const PORTAL_PACKAGE: &'static str = "com.droidrun.portal";

/// Full accessibility service component name.
pub const A11Y_SERVICE: &'static str =
    "com.droidrun.portal/com.droidrun.portal.service.DroidrunAccessibilityService";

/// Default HTTP server port on device.
pub const PORTAL_HTTP_PORT: u16 = 8080;

/// DroidRun keyboard IME component.
pub const KEYBOARD_IME: &'static str = "com.droidrun.portal/.input.DroidrunKeyboardIME";

/// GitHub repo for Portal releases.
pub const PORTAL_REPO: &'static str = "droidrun/droidrun-portal";

/// Version map URL for SDK and Portal compatibility.
pub const VERSION_MAP_URL: &'static str =
    "https://raw.githubusercontent.com/droidrun/gists/refs/heads/main/version_map_android.json";

/// Content-provider query for the installed packages.
pub const PACKAGES_QUERY: &'static str = "content query --uri content://com.droidrun.portal/packages";

/// Content-provider query for the Portal version.
pub const VERSION_QUERY: &'static str = "content query --uri content://com.droidrun.portal/version";

/// Content-provider query for the short state (used as a ping).
pub const STATE_QUERY: &'static str = "content query --uri content://com.droidrun.portal/state";

/// Content-provider query for the full state.
pub const STATE_FULL_QUERY: &'static str =
    "content query --uri content://com.droidrun.portal/state_full";

/// Switches on the Portal's HTTP server.
pub const ENABLE_SOCKET_SERVER: &'static str =
    "content insert --uri content://com.droidrun.portal/toggle_socket_server --bind enabled:b:true";

/// Reads the enabled accessibility services.
pub const A11Y_SERVICES_QUERY: &'static str = "settings get secure enabled_accessibility_services";

/// Reads whether accessibility is on.
pub const A11Y_ENABLED_QUERY: &'static str = "settings get secure accessibility_enabled";

/// Switches accessibility on.
pub const A11Y_ENABLE_COMMAND: &'static str = "settings put secure accessibility_enabled 1";

/// Opens the accessibility settings screen.
pub const OPEN_A11Y_SETTINGS: &'static str = "am start -a android.settings.ACCESSIBILITY_SETTINGS";

// ---- outside calls ----

#[verifier::external_type_specification]
#[verifier::external_body]
pub struct ExDecodeError(base64::DecodeError);

/// The character of a 6-bit value in the standard base64 alphabet
/// (`A-Z`, `a-z`, `0-9`, `+`, `/`).
pub open spec fn base64_digit(v: int) -> char {
    if v < 26 {
        (65 + v) as char
    } else if v < 52 {
        (97 + v - 26) as char
    } else if v < 62 {
        (48 + v - 52) as char
    } else if v == 62 {
        '+'
    } else {
        '/'
    }
}

/// Standard base64 with `=` padding: each group of three bytes becomes four
/// characters of six bits each; a final group of one or two bytes is padded.
pub open spec fn base64_std(b: Seq<u8>) -> Seq<char>
    decreases b.len(),
{
    let x: int = if b.len() > 0 { b[0] as int } else { 0 };
    let y: int = if b.len() > 1 { b[1] as int } else { 0 };
    let z: int = if b.len() > 2 { b[2] as int } else { 0 };
    if b.len() == 0 {
        seq![]
    } else if b.len() == 1 {
        seq![base64_digit(x / 4), base64_digit((x % 4) * 16), '=', '=']
    } else if b.len() == 2 {
        seq![
            base64_digit(x / 4),
            base64_digit((x % 4) * 16 + y / 16),
            base64_digit((y % 16) * 4),
            '=',
        ]
    } else {
        seq![
            base64_digit(x / 4),
            base64_digit((x % 4) * 16 + y / 16),
            base64_digit((y % 16) * 4 + z / 64),
            base64_digit(z % 64),
        ] + base64_std(b.skip(3))
    }
}

/// The standard (padded) base64 text of the UTF-8 bytes of `text`.
pub open spec fn base64_of(text: Seq<char>) -> Seq<char> {
    base64_std(encode_utf8(text))
}

/// The bytes whose standard base64 text is `text`, or `None` where there are
/// none. (The encoding is one to one: `lemma_base64_one_to_one`.)
pub open spec fn base64_decoded(text: Seq<char>) -> Option<Seq<u8>> {
    if exists|b: Seq<u8>| base64_std(b) == text {
        Some(choose|b: Seq<u8>| base64_std(b) == text)
    } else {
        None
    }
}

proof fn lemma_digit_one_to_one(v: int, w: int)
    requires
        0 <= v < 64,
        0 <= w < 64,
        base64_digit(v) == base64_digit(w),
    ensures
        v == w,
{
    assert(base64_digit(v) as u32 == base64_digit(w) as u32);
}

proof fn lemma_digit_not_pad(v: int)
    requires
        0 <= v < 64,
    ensures
        base64_digit(v) != '=',
{
    assert(base64_digit(v) as u32 != '=' as u32);
}

/// The length of the standard base64 text of `b`: four characters for each
/// started group of three bytes.
proof fn lemma_base64_len(b: Seq<u8>)
    ensures
        base64_std(b).len() == 4 * ((b.len() + 2) / 3),
    decreases b.len(),
{
    if b.len() > 2 {
        lemma_base64_len(b.skip(3));
    }
}

/// Different byte strings have different standard base64 texts.
pub proof fn lemma_base64_one_to_one(a: Seq<u8>, b: Seq<u8>)
    requires
        base64_std(a) == base64_std(b),
    ensures
        a == b,
    decreases a.len(),
{
    let ea = base64_std(a);
    lemma_base64_len(a);
    lemma_base64_len(b);
    if a.len() == 0 || b.len() == 0 {
        assert(a.len() == 0 && b.len() == 0);
        assert(a =~= b);
    } else {
        let xa = a[0] as int;
        let xb = b[0] as int;
        let ya: int = if a.len() > 1 { a[1] as int } else { 0 };
        let yb: int = if b.len() > 1 { b[1] as int } else { 0 };
        let za: int = if a.len() > 2 { a[2] as int } else { 0 };
        let zb: int = if b.len() > 2 { b[2] as int } else { 0 };
        // the third and fourth characters tell how many bytes the group holds
        lemma_digit_not_pad((ya % 16) * 4 + za / 64);
        lemma_digit_not_pad((yb % 16) * 4 + zb / 64);
        lemma_digit_not_pad(za % 64);
        lemma_digit_not_pad(zb % 64);
        lemma_digit_not_pad((ya % 16) * 4);
        lemma_digit_not_pad((yb % 16) * 4);
        assert(ea[2] == '=' <==> a.len() == 1);
        assert(ea[3] == '=' <==> a.len() <= 2);
        assert(a.len() == 1 <==> b.len() == 1);
        assert(a.len() <= 2 <==> b.len() <= 2);
        let eb = base64_std(b);
        assert(ea[0] == base64_digit(xa / 4));
        assert(eb[0] == base64_digit(xb / 4));
        assert(ea[1] == base64_digit((xa % 4) * 16 + ya / 16));
        assert(eb[1] == base64_digit((xb % 4) * 16 + yb / 16));
        lemma_digit_one_to_one(xa / 4, xb / 4);
        lemma_digit_one_to_one((xa % 4) * 16 + ya / 16, (xb % 4) * 16 + yb / 16);
        assert(xa == xb);
        if a.len() >= 2 {
            lemma_digit_one_to_one(
                if a.len() == 2 { (ya % 16) * 4 } else { (ya % 16) * 4 + za / 64 },
                if b.len() == 2 { (yb % 16) * 4 } else { (yb % 16) * 4 + zb / 64 },
            );
            assert(ya == yb);
        }
        if a.len() >= 3 {
            lemma_digit_one_to_one(za % 64, zb % 64);
            assert(za == zb);
            assert(base64_std(a) == ea.take(4) + base64_std(a.skip(3)));
            assert(base64_std(b) == ea.take(4) + base64_std(b.skip(3)));
            assert(base64_std(a.skip(3)) =~= ea.skip(4));
            assert(base64_std(b.skip(3)) =~= ea.skip(4));
            lemma_base64_one_to_one(a.skip(3), b.skip(3));
            assert(a =~= a.take(3) + a.skip(3));
            assert(b =~= b.take(3) + b.skip(3));
            assert(a.take(3) =~= b.take(3));
        } else {
            assert(a =~= b);
        }
    }
}

/// `STANDARD.encode(text)` of the base64 crate.
#[verifier::external_body]
fn base64_encode(text: &str) -> (r: String)
    ensures
        r@ == base64_of(text@),
{
    base64::engine::general_purpose::STANDARD.encode(text)
}

/// `STANDARD.decode(text)` of the base64 crate. The engine pads on encoding
/// and, on decoding, requires canonical padding and forbids trailing bits, so
/// it accepts exactly the texts it would write: `Ok(b)` where `text` is the
/// standard base64 text of `b`, an error where no bytes have that text.
#[verifier::external_body]
fn base64_decode(text: &str) -> (r: core::result::Result<Vec<u8>, base64::DecodeError>)
    ensures
        r matches Ok(b) ==> base64_std(b@) == text@,
        r is Err ==> forall|b: Seq<u8>| base64_std(b) != text@,
{
    base64::engine::general_purpose::STANDARD.decode(text)
}

/// The `Display` text of a base64 decoding error; nothing is claimed of its
/// wording.
#[verifier::external_body]
fn decode_error_text(e: &base64::DecodeError) -> String {
    e.to_string()
}

// ---- reading replies ----

/// A value that may hold JSON text: a string is read as JSON when it parses,
/// anything else is kept.
pub open spec fn parsed_or_kept(inner: JsonView) -> JsonView {
    match inner {
        JsonView::Str(s) => match json_parse_result(s) {
            Some(p) => p,
            None => inner,
        },
        _ => inner,
    }
}

/// The Portal's `{status, result}` / `{status, data}` envelope opened: the
/// `result` member (else `data`), itself read as JSON when it is JSON text;
/// anything else unchanged.
pub open spec fn unwrapped(data: JsonView) -> JsonView {
    match data {
        JsonView::Object(m) => match lookup_from(m, "result"@, 0) {
            Some(inner) => parsed_or_kept(inner),
            None => match lookup_from(m, "data"@, 0) {
                Some(inner) => parsed_or_kept(inner),
                None => data,
            },
        },
        _ => data,
    }
}

fn parsed_or_kept_exec(inner: &JsonValue) -> (r: JsonValue)
    ensures
        r@ == parsed_or_kept(inner@),
{
    match inner {
        JsonValue::Str(s) => match parse_json(s.as_str()) {
            Some(p) => p,
            None => inner.duplicate(),
        },
        _ => inner.duplicate(),
    }
}

/// Opens the Portal's `{status, result/data}` envelope.
pub fn unwrap_portal_response(data: JsonValue) -> (r: JsonValue)
    ensures
        r@ == unwrapped(data@),
{
    match &data {
        JsonValue::Object(_) => {
            match data.get("result") {
                Some(inner) => {
                    return parsed_or_kept_exec(inner);
                },
                None => {},
            }
            match data.get("data") {
                Some(inner) => {
                    return parsed_or_kept_exec(inner);
                },
                None => {},
            }
        },
        _ => {},
    }
    data
}

/// The JSON a trimmed output line carries: after `result=`, or the whole line
/// when it starts with `{` or `[`.
pub open spec fn line_json(t: Seq<char>) -> Option<JsonView> {
    let after = match find(t, "result="@) {
        Some(j) => json_parse_result(t.skip(j + 7)),
        None => None,
    };
    if after is Some {
        after
    } else if starts_with(t, "{"@) || starts_with(t, "["@) {
        json_parse_result(t)
    } else {
        None
    }
}

/// The JSON of the first line, from position `i` on, that carries some.
pub open spec fn lines_json_from(ls: Seq<Seq<char>>, i: int) -> Option<JsonView>
    decreases ls.len() - i,
{
    if i < 0 || i >= ls.len() {
        None
    } else {
        match line_json(trim(ls[i])) {
            Some(v) => Some(v),
            None => lines_json_from(ls, i + 1),
        }
    }
}

/// What content-provider output holds: the JSON of the first line that
/// carries some, else the whole trimmed output read as JSON; unwrapped.
pub open spec fn content_provider_json(raw: Seq<char>) -> Option<JsonView> {
    match lines_json_from(lines(raw), 0) {
        Some(v) => Some(unwrapped(v)),
        None => match json_parse_result(trim(raw)) {
            Some(v) => Some(unwrapped(v)),
            None => None,
        },
    }
}

fn line_json_exec(t: &Vec<char>) -> (r: Option<JsonValue>)
    ensures
        view_opt_owned(r) == line_json(t@),
{
    let rs = chars_of("result=");
    proof {
        reveal_strlit("result=");
    }
    let n = t.len();
    match find_chars(t.as_slice(), rs.as_slice()) {
        Some(j) => {
            proof {
                crate::text::lemma_find_from_sound(t@, rs@, 0);
            }
            let js = string_of(copy_range(t.as_slice(), j + 7, n).as_slice());
            match parse_json(js.as_str()) {
                Some(p) => {
                    return Some(p);
                },
                None => {},
            }
        },
        None => {},
    }
    let brace = chars_of("{");
    let bracket = chars_of("[");
    if starts_with_chars(t.as_slice(), brace.as_slice()) || starts_with_chars(
        t.as_slice(),
        bracket.as_slice(),
    ) {
        let ts = string_of(t.as_slice());
        parse_json(ts.as_str())
    } else {
        None
    }
}

/// Parses raw content-provider output (`Row: 0 result={json}`) to JSON.
pub fn parse_content_provider_output(raw: &str) -> (r: Option<JsonValue>)
    ensures
        view_opt_owned(r) == content_provider_json(raw@),
{
    let c = chars_of(raw);
    let ls = lines_of(c.as_slice());
    let ghost lv = views(ls@);
    let mut i: usize = 0;
    while i < ls.len()
        invariant
            lv == views(ls@),
            lv == lines(raw@),
            i <= ls.len(),
            lines_json_from(lv, 0) == lines_json_from(lv, i as int),
        decreases ls.len() - i,
    {
        let t = trim_chars(ls[i].as_slice());
        assert(t@ == trim(lv[i as int]));
        match line_json_exec(&t) {
            Some(p) => {
                return Some(unwrap_portal_response(p));
            },
            None => {},
        }
        i = i + 1;
    }
    let whole = string_of(trim_chars(c.as_slice()).as_slice());
    match parse_json(whole.as_str()) {
        Some(p) => Some(unwrap_portal_response(p)),
        None => None,
    }
}

/// `result` (else `data`) of an object reply.
pub open spec fn inner_value(data: JsonView) -> Option<JsonView> {
    match data {
        JsonView::Object(m) => match lookup_from(m, "result"@, 0) {
            Some(v) => Some(v),
            None => lookup_from(m, "data"@, 0),
        },
        _ => None,
    }
}

/// Extracts the inner value from a Portal response envelope.
pub fn extract_inner_value(data: &JsonValue) -> (r: Option<&JsonValue>)
    ensures
        view_opt(r) == inner_value(data@),
{
    match data {
        JsonValue::Object(_) => match data.get("result") {
            Some(v) => Some(v),
            None => data.get("data"),
        },
        _ => None,
    }
}

/// A package list found in a value: an array, or an object's `packages`
/// array.
pub open spec fn inner_packages(v: Option<JsonView>) -> Option<Seq<JsonView>> {
    match v {
        Some(JsonView::Array(s)) => Some(s),
        Some(JsonView::Object(m)) => as_list(lookup_from(m, "packages"@, 0)),
        _ => None,
    }
}

/// The package list of a reply: the reply itself when it is an array; else
/// its `packages` array; else the list found under `result`, then `data`.
pub open spec fn packages_list(data: JsonView) -> Option<Seq<JsonView>> {
    match data {
        JsonView::Array(s) => Some(s),
        JsonView::Object(m) => match as_list(lookup_from(m, "packages"@, 0)) {
            Some(p) => Some(p),
            None => match inner_packages(lookup_from(m, "result"@, 0)) {
                Some(p) => Some(p),
                None => inner_packages(lookup_from(m, "data"@, 0)),
            },
        },
        _ => None,
    }
}

fn inner_packages_exec(v: Option<&JsonValue>) -> (r: Option<&Vec<JsonValue>>)
    ensures
        match inner_packages(view_opt(v)) {
            Some(p) => r matches Some(l) && item_views(l@) == p,
            None => r is None,
        },
{
    match v {
        Some(x) => match x {
            JsonValue::Array(_) => x.as_array(),
            JsonValue::Object(_) => match x.get("packages") {
                Some(p) => p.as_array(),
                None => None,
            },
            _ => None,
        },
        None => None,
    }
}

/// Extracts the package list from the reply formats the Portal uses.
pub fn extract_packages_list(data: &JsonValue) -> (r: Option<&Vec<JsonValue>>)
    ensures
        match packages_list(data@) {
            Some(p) => r matches Some(l) && item_views(l@) == p,
            None => r is None,
        },
{
    match data {
        JsonValue::Array(_) => data.as_array(),
        JsonValue::Object(_) => {
            match data.get("packages") {
                Some(p) => match p.as_array() {
                    Some(l) => {
                        return Some(l);
                    },
                    None => {},
                },
                None => {},
            }
            match inner_packages_exec(data.get("result")) {
                Some(l) => Some(l),
                None => inner_packages_exec(data.get("data")),
            }
        },
        _ => None,
    }
}

// ---- apps ----

/// The app described by one list item: objects only, and unless system apps
/// are included, only those that carry `isSystemApp` and are not marked as
/// system apps.
pub open spec fn app_entry(item: JsonView, include_system: bool) -> Option<(Seq<char>, Seq<char>)> {
    match item {
        JsonView::Object(m) => {
            let fields = (text_or_empty(item, "packageName"@), text_or_empty(item, "label"@));
            if include_system {
                Some(fields)
            } else {
                match lookup_from(m, "isSystemApp"@, 0) {
                    None => None,
                    Some(v) => if as_flag(Some(v)) == Some(true) {
                        None
                    } else {
                        Some(fields)
                    },
                }
            }
        },
        _ => None,
    }
}

/// The apps of a package list, in order.
pub open spec fn apps_of(list: Seq<JsonView>, include_system: bool) -> Seq<(Seq<char>, Seq<char>)>
    decreases list.len(),
{
    if list.len() == 0 {
        seq![]
    } else {
        let p = apps_of(list.drop_last(), include_system);
        match app_entry(list.last(), include_system) {
            Some(a) => p.push(a),
            None => p,
        }
    }
}

/// `apps` describe the package and label pairs `want`, in order.
pub open spec fn apps_are(apps: Seq<AppInfo>, want: Seq<(Seq<char>, Seq<char>)>) -> bool {
    &&& apps.len() == want.len()
    &&& forall|k: int|
        0 <= k < apps.len() ==> (#[trigger] apps[k]).package@ == want[k].0 && apps[k].label@
            == want[k].1
}

fn app_entry_exec(item: &JsonValue, include_system: bool) -> (r: Option<AppInfo>)
    ensures
        match app_entry(item@, include_system) {
            Some(a) => r matches Some(x) && x.package@ == a.0 && x.label@ == a.1,
            None => r is None,
        },
{
    match item {
        JsonValue::Object(_) => {
            if !include_system {
                match item.get("isSystemApp") {
                    None => {
                        return None;
                    },
                    Some(v) => {
                        if v.as_bool() == Some(true) {
                            return None;
                        }
                    },
                }
            }
            Some(
                AppInfo {
                    package: crate::formatter::text_field(item, "packageName"),
                    label: crate::formatter::text_field(item, "label"),
                },
            )
        },
        _ => None,
    }
}

/// The apps of a package list.
pub fn apps_from_list(list: &Vec<JsonValue>, include_system: bool) -> (r: Vec<AppInfo>)
    ensures
        apps_are(r@, apps_of(item_views(list@), include_system)),
{
    let ghost lv = item_views(list@);
    let mut apps: Vec<AppInfo> = Vec::new();
    let mut i: usize = 0;
    while i < list.len()
        invariant
            lv == item_views(list@),
            i <= list.len(),
            apps_are(apps@, apps_of(lv.take(i as int), include_system)),
        decreases list.len() - i,
    {
        assert(lv.take(i + 1).drop_last() =~= lv.take(i as int));
        assert(lv.take(i + 1).last() == list@[i as int]@);
        match app_entry_exec(&list[i], include_system) {
            Some(a) => {
                apps.push(a);
            },
            None => {},
        }
        i = i + 1;
    }
    assert(lv.take(list.len() as int) =~= lv);
    apps
}

/// The apps read from the output of the packages query.
pub fn apps_from_output(output: &str, include_system: bool) -> (r: Result<Vec<AppInfo>>)
    ensures
        match content_provider_json(output@) {
            None => r matches Err(DroidrunError::Parse(m)) && m@
                == "cannot parse packages response"@,
            Some(data) => match packages_list(data) {
                Some(list) => r matches Ok(apps) && apps_are(apps@, apps_of(list, include_system)),
                None => r matches Ok(apps) && apps@.len() == 0,
            },
        },
{
    let data = match parse_content_provider_output(output) {
        Some(d) => d,
        None => {
            return Err(DroidrunError::Parse("cannot parse packages response".to_owned()));
        },
    };
    match extract_packages_list(&data) {
        Some(list) => Ok(apps_from_list(list, include_system)),
        None => Ok(Vec::new()),
    }
}

// ---- version, ping, state, screenshot ----

/// A string value, or `unknown`.
pub open spec fn text_or_unknown(v: JsonView) -> Seq<char> {
    match as_text(Some(v)) {
        Some(s) => s,
        None => "unknown"@,
    }
}

/// The version reported by the version query's output.
pub open spec fn version_of_output(raw: Seq<char>) -> Seq<char> {
    match content_provider_json(raw) {
        Some(data) => match as_text(Some(data)) {
            Some(s) => s,
            None => match inner_value(data) {
                Some(v) => text_or_unknown(v),
                None => "unknown"@,
            },
        },
        None => "unknown"@,
    }
}

fn text_or_unknown_exec(v: &JsonValue) -> (r: String)
    ensures
        r@ == text_or_unknown(v@),
{
    match v.as_str() {
        Some(s) => s.to_owned(),
        None => "unknown".to_owned(),
    }
}

/// The Portal version read from the output of the version query.
pub fn version_from_output(output: &str) -> (r: String)
    ensures
        r@ == version_of_output(output@),
{
    match parse_content_provider_output(output) {
        Some(data) => {
            match data.as_str() {
                Some(s) => {
                    return s.to_owned();
                },
                None => {},
            }
            match extract_inner_value(&data) {
                Some(v) => text_or_unknown_exec(v),
                None => "unknown".to_owned(),
            }
        },
        None => "unknown".to_owned(),
    }
}

/// The Portal version read from the JSON reply of `/version`, if the reply
/// has an inner value.
pub fn version_from_reply(data: &JsonValue) -> (r: Option<String>)
    ensures
        match inner_value(data@) {
            Some(v) => r matches Some(s) && s@ == text_or_unknown(v),
            None => r is None,
        },
{
    match extract_inner_value(data) {
        Some(v) => Some(text_or_unknown_exec(v)),
        None => None,
    }
}

/// A JSON string.
fn json_text(s: &str) -> (r: JsonValue)
    ensures
        r@ == JsonView::Str(s@),
{
    JsonValue::Str(s.to_owned())
}

/// `{"method": <method>, "status": "success"}` (keys in order).
pub open spec fn ping_reply(method: Seq<char>) -> JsonView {
    JsonView::Object(seq![("method"@, JsonView::Str(method)), ("status"@, JsonView::Str("success"@))])
}

/// The ping answer from the output of the state query: success when it holds
/// a `Row: 0 result=` line.
pub fn ping_from_output(output: &str) -> (r: Result<JsonValue>)
    ensures
        contains(output@, "Row: 0 result="@) ==> (r matches Ok(v) && v@ == ping_reply(
            "content_provider"@,
        )),
        !contains(output@, "Row: 0 result="@) ==> (r matches Err(DroidrunError::PortalCommError(m))
            && m@ == "Portal not reachable"@),
{
    let c = chars_of(output);
    let pat = chars_of("Row: 0 result=");
    if contains_chars(c.as_slice(), pat.as_slice()) {
        let mut m: Vec<(String, JsonValue)> = Vec::new();
        m.push(("method".to_owned(), json_text("content_provider")));
        m.push(("status".to_owned(), json_text("success")));
        proof {
            crate::json::lemma_object_view(m);
            assert(crate::json::member_views(m@) =~= ping_reply("content_provider"@)->Object_0);
        }
        Ok(JsonValue::Object(m))
    } else {
        Err(DroidrunError::PortalCommError("Portal not reachable".to_owned()))
    }
}

/// The ping answer when the Portal's HTTP server answered at `url`.
pub fn ping_reply_tcp(url: &str) -> (r: JsonValue)
    ensures
        r@ == JsonView::Object(
            seq![
                ("method"@, JsonView::Str("tcp"@)),
                ("status"@, JsonView::Str("success"@)),
                ("url"@, JsonView::Str(url@)),
            ],
        ),
{
    let mut m: Vec<(String, JsonValue)> = Vec::new();
    m.push(("method".to_owned(), json_text("tcp")));
    m.push(("status".to_owned(), json_text("success")));
    m.push(("url".to_owned(), json_text(url)));
    proof {
        crate::json::lemma_object_view(m);
        assert(crate::json::member_views(m@) =~= seq![
            ("method"@, JsonView::Str("tcp"@)),
            ("status"@, JsonView::Str("success"@)),
            ("url"@, JsonView::Str(url@)),
        ]);
    }
    JsonValue::Object(m)
}

/// The device state read from the output of the full-state query.
pub fn state_from_output(output: &str) -> (r: Result<JsonValue>)
    ensures
        match content_provider_json(output@) {
            Some(v) => r matches Ok(x) && x@ == v,
            None => r matches Err(DroidrunError::Parse(m)) && m@
                == "failed to parse state data from ContentProvider"@,
        },
{
    match parse_content_provider_output(output) {
        Some(v) => Ok(v),
        None => Err(
            DroidrunError::Parse("failed to parse state data from ContentProvider".to_owned()),
        ),
    }
}

/// The screenshot bytes carried by a JSON reply of `/screenshot`.
pub fn screenshot_from_reply(data: &JsonValue) -> (r: Result<Vec<u8>>)
    ensures
        as_text(jget(data@, "status"@)) != Some("success"@) ==> (r matches Err(
            DroidrunError::PortalCommError(m),
        ) && m@ == "screenshot response status != success"@),
        as_text(jget(data@, "status"@)) == Some("success"@) ==> match inner_value(data@) {
            Some(JsonView::Str(b64)) => match base64_decoded(b64) {
                Some(bytes) => r matches Ok(v) && v@ == bytes,
                None => r matches Err(DroidrunError::Parse(m)) && starts_with(
                    m@,
                    "base64 decode error: "@,
                ),
            },
            _ => r matches Err(DroidrunError::Parse(m)) && m@ == "no screenshot data in response"@,
        },
{
    let success = match data.get("status") {
        Some(s) => match s.as_str() {
            Some(t) => {
                let tc = chars_of(t);
                let sc = chars_of("success");
                crate::text::chars_eq(tc.as_slice(), sc.as_slice())
            },
            None => false,
        },
        None => false,
    };
    if !success {
        return Err(DroidrunError::PortalCommError("screenshot response status != success".to_owned()));
    }
    let b64 = match extract_inner_value(data) {
        Some(v) => match v.as_str() {
            Some(s) => s,
            None => {
                return Err(DroidrunError::Parse("no screenshot data in response".to_owned()));
            },
        },
        None => {
            return Err(DroidrunError::Parse("no screenshot data in response".to_owned()));
        },
    };
    match base64_decode(b64) {
        Ok(bytes) => {
            proof {
                let c = choose|x: Seq<u8>| base64_std(x) == b64@;
                lemma_base64_one_to_one(c, bytes@);
            }
            Ok(bytes)
        },
        Err(e) => {
            let mut m = chars_of("base64 decode error: ");
            let t = decode_error_text(&e);
            let ghost head = m@;
            push_str(&mut m, t.as_str());
            assert(m@.take(head.len() as int) =~= head);
            Err(DroidrunError::Parse(string_of(m.as_slice())))
        },
    }
}

// ---- commands ----

/// The shell command that types `text` through the Portal keyboard.
pub fn input_text_command(text: &str, clear: bool) -> (r: String)
    ensures
        r@ == "content insert --uri \"content://com.droidrun.portal/keyboard/input\" --bind base64_text:s:\""@
            + base64_of(text@) + "\" --bind clear:b:"@ + (if clear {
            "true"@
        } else {
            "false"@
        }),
{
    let encoded = base64_encode(text);
    let mut v = chars_of(
        "content insert --uri \"content://com.droidrun.portal/keyboard/input\" --bind base64_text:s:\"",
    );
    push_str(&mut v, encoded.as_str());
    push_str(&mut v, "\" --bind clear:b:");
    if clear {
        push_str(&mut v, "true");
    } else {
        push_str(&mut v, "false");
    }
    string_of(v.as_slice())
}

/// The JSON body that types `text` through the Portal's HTTP server.
pub fn keyboard_payload(text: &str, clear: bool) -> (r: JsonValue)
    ensures
        r@ == JsonView::Object(
            seq![
                ("base64_text"@, JsonView::Str(base64_of(text@))),
                ("clear"@, JsonView::Bool(clear)),
            ],
        ),
{
    let encoded = base64_encode(text);
    let mut m: Vec<(String, JsonValue)> = Vec::new();
    m.push(("base64_text".to_owned(), JsonValue::Str(encoded)));
    m.push(("clear".to_owned(), JsonValue::Bool(clear)));
    proof {
        crate::json::lemma_object_view(m);
        assert(crate::json::member_views(m@) =~= seq![
            ("base64_text"@, JsonView::Str(base64_of(text@))),
            ("clear"@, JsonView::Bool(clear)),
        ]);
    }
    JsonValue::Object(m)
}

/// `http://localhost:<port>`.
pub fn tcp_base_url(port: u16) -> (r: String)
    ensures
        r@ == "http://localhost:"@ + nat_to_dec(port as nat),
{
    let mut v = chars_of("http://localhost:");
    push_nat(&mut v, port as u64);
    string_of(v.as_slice())
}

/// The base URL in use, or `http://localhost:0` when none is set.
pub fn base_url(tcp_base_url: &Option<String>) -> (r: String)
    ensures
        tcp_base_url matches Some(u) ==> r@ == u@,
        tcp_base_url is None ==> r@ == "http://localhost:0"@,
{
    match tcp_base_url {
        Some(u) => u.clone(),
        None => "http://localhost:0".to_owned(),
    }
}

/// `base` followed by `path`.
pub fn endpoint(base: &str, path: &str) -> (r: String)
    ensures
        r@ == base@ + path@,
{
    let mut v = chars_of(base);
    push_str(&mut v, path);
    string_of(v.as_slice())
}

/// The screenshot URL: `?hideOverlay=false` is added when the overlay stays.
pub fn screenshot_url(base: &str, hide_overlay: bool) -> (r: String)
    ensures
        r@ == base@ + "/screenshot"@ + (if hide_overlay {
            Seq::<char>::empty()
        } else {
            "?hideOverlay=false"@
        }),
{
    let mut v = chars_of(base);
    push_str(&mut v, "/screenshot");
    if !hide_overlay {
        push_str(&mut v, "?hideOverlay=false");
    }
    string_of(v.as_slice())
}

/// The first forward whose remote is `tcp:<remote_port>`, when there is one.
pub open spec fn forward_for(forwards: Seq<ForwardEntry>, remote: Seq<char>, i: int) -> Option<
    ForwardEntry,
>
    decreases forwards.len() - i,
{
    if i < 0 || i >= forwards.len() {
        None
    } else if forwards[i].remote@ == remote {
        Some(forwards[i])
    } else {
        forward_for(forwards, remote, i + 1)
    }
}

/// Milliseconds to wait after asking the Portal to start its HTTP server.
pub const SERVER_START_WAIT_MS: u64 = 1000;

/// Which ping of the Portal's HTTP server is being answered while TCP mode
/// is set up.
#[derive(Debug, Clone, Copy, PartialEq, Eq, Structural)]
pub enum TcpPing {
    /// The ping right after the forward is in place.
    First,
    /// The ping after the server was asked to start.
    AfterServerStart,
}

/// What setting up TCP mode does after a ping.
#[derive(Debug)]
pub enum TcpSetupStep {
    /// The server answered: TCP mode is on.
    Enabled,
    /// Ask the Portal to start its server (`ENABLE_SOCKET_SERVER`), wait
    /// `SERVER_START_WAIT_MS`, then ping again.
    StartServerAndPingAgain,
    /// The server did not answer after being started: TCP mode stays off.
    Unavailable(DroidrunError),
}

/// The decision after a ping while setting up TCP mode: an answered ping
/// turns TCP mode on; an unanswered first ping starts the server and pings
/// again; an unanswered second ping is an error.
pub fn after_tcp_ping(ping: TcpPing, answered: bool) -> (r: TcpSetupStep)
    ensures
        answered ==> r is Enabled,
        !answered && ping == TcpPing::First ==> r is StartServerAndPingAgain,
        !answered && ping == TcpPing::AfterServerStart ==> (r matches TcpSetupStep::Unavailable(
            DroidrunError::PortalCommError(m),
        ) && m@ == "TCP unavailable after enabling server"@),
{
    if answered {
        TcpSetupStep::Enabled
    } else {
        match ping {
            TcpPing::First => TcpSetupStep::StartServerAndPingAgain,
            TcpPing::AfterServerStart => TcpSetupStep::Unavailable(
                DroidrunError::PortalCommError("TCP unavailable after enabling server".to_owned()),
            ),
        }
    }
}

/// The local port of the existing forward to `tcp:<remote_port>` (the first
/// one; `None` when there is none or its local side is no TCP port).
pub fn find_forward_port(forwards: &Vec<ForwardEntry>, remote_port: u16) -> (r: Option<u16>)
    ensures
        match forward_for(forwards@, "tcp:"@ + nat_to_dec(remote_port as nat), 0) {
            Some(f) => match tcp_port(f.local@) {
                Some(p) => r == Some(p as u16),
                None => r is None,
            },
            None => r is None,
        },
{
    let mut v = chars_of("tcp:");
    push_nat(&mut v, remote_port as u64);
    let expected = string_of(v.as_slice());
    let mut i: usize = 0;
    while i < forwards.len()
        invariant
            i <= forwards.len(),
            expected@ == "tcp:"@ + nat_to_dec(remote_port as nat),
            forward_for(forwards@, expected@, 0) == forward_for(forwards@, expected@, i as int),
        decreases forwards.len() - i,
    {
        if forwards[i].remote == expected {
            return forwards[i].local_port();
        }
        i = i + 1;
    }
    None
}

/// Whether the state query's output shows the Portal service answering.
pub fn service_responsive(output: &str) -> (r: bool)
    ensures
        r == contains(output@, "\"status\":\"success\""@),
{
    let c = chars_of(output);
    let p = chars_of("\"status\":\"success\"");
    contains_chars(c.as_slice(), p.as_slice())
}

/// `settings put secure enabled_accessibility_services <service>`.
pub fn enable_service_command() -> (r: String)
    ensures
        r@ == "settings put secure enabled_accessibility_services "@ + A11Y_SERVICE@,
{
    let mut v = chars_of("settings put secure enabled_accessibility_services ");
    push_str(&mut v, A11Y_SERVICE);
    string_of(v.as_slice())
}

/// Whether the services list names the Portal's accessibility service.
pub fn service_listed(services: &str) -> (r: bool)
    ensures
        r == contains(services@, A11Y_SERVICE@),
{
    let c = chars_of(services);
    let s = chars_of(A11Y_SERVICE);
    contains_chars(c.as_slice(), s.as_slice())
}

/// Whether `settings get secure accessibility_enabled` answered `1`.
pub fn accessibility_on(output: &str) -> (r: bool)
    ensures
        r == (trim(output@) == "1"@),
{
    let c = chars_of(output);
    let t = trim_chars(c.as_slice());
    let one = chars_of("1");
    crate::text::chars_eq(t.as_slice(), one.as_slice())
}

/// The command that sets the overlay offset.
pub fn overlay_offset_command(offset: i32) -> (r: String)
    ensures
        r@ == "content insert --uri \"content://com.droidrun.portal/overlay_offset\" --bind offset:i:"@
            + crate::text::int_to_dec(offset as int),
{
    let mut v = chars_of("content insert --uri \"content://com.droidrun.portal/overlay_offset\" --bind offset:i:");
    push_int(&mut v, offset as i64);
    string_of(v.as_slice())
}

/// The command that shows or hides the overlay.
pub fn overlay_visible_command(visible: bool) -> (r: String)
    ensures
        r@ == "content insert --uri \"content://com.droidrun.portal/overlay_visible\" --bind visible:b:"@
            + (if visible {
            "true"@
        } else {
            "false"@
        }),
{
    let mut v = chars_of("content insert --uri \"content://com.droidrun.portal/overlay_visible\" --bind visible:b:");
    if visible {
        push_str(&mut v, "true");
    } else {
        push_str(&mut v, "false");
    }
    string_of(v.as_slice())
}

/// `ime <verb> <keyboard>` for the DroidRun keyboard.
pub fn ime_command(verb: &str) -> (r: String)
    ensures
        r@ == "ime "@ + verb@ + " "@ + KEYBOARD_IME@,
{
    let mut v = chars_of("ime ");
    push_str(&mut v, verb);
    push_str(&mut v, " ");
    push_str(&mut v, KEYBOARD_IME);
    string_of(v.as_slice())
}

} // verus!
