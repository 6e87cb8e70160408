//! JSON documents as plain values: the accessibility tree, the phone state and
//! the Portal's replies all arrive as JSON, and the logic that reads them works
//! on `JsonValue`. Text is turned into a `JsonValue` by `serde_json`.
use vstd::prelude::*;

verus! {

/// A JSON document. A number keeps its integer value, where it has one that
/// fits in `i64`, beside its text; an object keeps its members in order.
#[derive(Debug)]
pub enum JsonValue {
    Null,
    Bool(bool),
    Number(Option<i64>, String),
    Str(String),
    Array(Vec<JsonValue>),
    Object(Vec<(String, JsonValue)>),
}

/// The mathematical model of a JSON document.
pub enum JsonView {
    Null,
    Bool(bool),
    Number(Option<i64>, Seq<char>),
    Str(Seq<char>),
    Array(Seq<JsonView>),
    Object(Seq<(Seq<char>, JsonView)>),
}

/// The model of a document, member by member.
pub open spec fn json_view(j: JsonValue) -> JsonView
    decreases j,
{
    match j {
        JsonValue::Null => JsonView::Null,
        JsonValue::Bool(b) => JsonView::Bool(b),
        JsonValue::Number(i, t) => JsonView::Number(i, t@),
        JsonValue::Str(s) => JsonView::Str(s@),
        JsonValue::Array(v) => JsonView::Array(
            Seq::new(
                v.len() as nat,
                |i: int|
                    if 0 <= i < v.len() {
                        json_view(v[i])
                    } else {
                        JsonView::Null
                    },
            ),
        ),
        JsonValue::Object(m) => JsonView::Object(
            Seq::new(
                m.len() as nat,
                |i: int|
                    if 0 <= i < m.len() {
                        (m[i].0@, json_view(m[i].1))
                    } else {
                        (Seq::empty(), JsonView::Null)
                    },
            ),
        ),
    }
}

impl View for JsonValue {
    type V = JsonView;

    open spec fn view(&self) -> JsonView {
        json_view(*self)
    }
}

/// The views of a sequence of documents.
pub open spec fn item_views(s: Seq<JsonValue>) -> Seq<JsonView> {
    Seq::new(s.len(), |i: int| s[i]@)
}

/// The views of an object's members.
pub open spec fn member_views(m: Seq<(String, JsonValue)>) -> Seq<(Seq<char>, JsonView)> {
    Seq::new(m.len(), |i: int| (m[i].0@, m[i].1@))
}

/// The view of an array is the views of its items.
pub proof fn lemma_array_view(v: Vec<JsonValue>)
    ensures
        JsonValue::Array(v)@ == JsonView::Array(item_views(v@)),
{
    assert(JsonValue::Array(v)@->Array_0 =~= item_views(v@));
}

/// The view of an object is the views of its members.
pub proof fn lemma_object_view(m: Vec<(String, JsonValue)>)
    ensures
        JsonValue::Object(m)@ == JsonView::Object(member_views(m@)),
{
    assert(JsonValue::Object(m)@->Object_0 =~= member_views(m@));
}

/// The view of an optional reference to a document.
pub open spec fn view_opt(r: Option<&JsonValue>) -> Option<JsonView> {
    match r {
        Some(x) => Some(x@),
        None => None,
    }
}

/// The value of the first member named `key` at or after position `i`.
pub open spec fn lookup_from(m: Seq<(Seq<char>, JsonView)>, key: Seq<char>, i: int) -> Option<
    JsonView,
>
    decreases m.len() - i,
{
    if i < 0 || i >= m.len() {
        None
    } else if m[i].0 == key {
        Some(m[i].1)
    } else {
        lookup_from(m, key, i + 1)
    }
}

/// `value.get(key)`: the member `key` of an object; nothing for other values.
pub open spec fn jget(v: JsonView, key: Seq<char>) -> Option<JsonView> {
    match v {
        JsonView::Object(m) => lookup_from(m, key, 0),
        _ => None,
    }
}

/// `as_i64`: the integer value of a number that has one.
pub open spec fn as_int(v: Option<JsonView>) -> Option<i64> {
    match v {
        Some(JsonView::Number(Some(i), _)) => Some(i),
        _ => None,
    }
}

/// `as_str`: the text of a string.
pub open spec fn as_text(v: Option<JsonView>) -> Option<Seq<char>> {
    match v {
        Some(JsonView::Str(s)) => Some(s),
        _ => None,
    }
}

/// `as_bool`: the value of a boolean.
pub open spec fn as_flag(v: Option<JsonView>) -> Option<bool> {
    match v {
        Some(JsonView::Bool(b)) => Some(b),
        _ => None,
    }
}

/// `as_array`: the items of an array.
pub open spec fn as_list(v: Option<JsonView>) -> Option<Seq<JsonView>> {
    match v {
        Some(JsonView::Array(s)) => Some(s),
        _ => None,
    }
}

/// `get(key).and_then(as_i64).unwrap_or(default)`.
pub open spec fn int_or(v: JsonView, key: Seq<char>, default: i64) -> i64 {
    match as_int(jget(v, key)) {
        Some(i) => i,
        None => default,
    }
}

/// `get(key).and_then(as_bool).unwrap_or(false)`.
pub open spec fn flag_of(v: JsonView, key: Seq<char>) -> bool {
    as_flag(jget(v, key)) == Some(true)
}

/// `get(key).and_then(as_str).unwrap_or("")`.
pub open spec fn text_or_empty(v: JsonView, key: Seq<char>) -> Seq<char> {
    match as_text(jget(v, key)) {
        Some(s) => s,
        None => Seq::empty(),
    }
}

/// The items of the array under `"children"`, or none.
pub open spec fn children_of(v: JsonView) -> Seq<JsonView> {
    match as_list(jget(v, "children"@)) {
        Some(s) => s,
        None => Seq::empty(),
    }
}

proof fn lemma_lookup_member(m: Seq<(Seq<char>, JsonView)>, key: Seq<char>, i: int)
    ensures
        lookup_from(m, key, i) matches Some(x) ==> exists|k: int|
            0 <= k < m.len() && (#[trigger] m[k]).1 == x,
    decreases m.len() - i,
{
    if 0 <= i < m.len() && m[i].0 != key {
        lemma_lookup_member(m, key, i + 1);
    }
}

/// A child of a node is structurally smaller than the node.
pub proof fn lemma_child_smaller(v: JsonView, j: int)
    requires
        0 <= j < children_of(v).len(),
    ensures
        decreases_to!(v => children_of(v)[j]),
{
    let m = v->Object_0;
    lemma_lookup_member(m, "children"@, 0);
    let c = jget(v, "children"@)->0;
    let k = choose|k: int| 0 <= k < m.len() && (#[trigger] m[k]).1 == c;
    let s = c->Array_0;
    assert(decreases_to!(v => v->Object_0));
    assert(decreases_to!(m => m[k]));
    assert(decreases_to!(m[k] => m[k].1));
    assert(decreases_to!(c => c->Array_0));
    assert(decreases_to!(s => s[j]));
}

/// `String == &str`.
fn same_text(a: &String, b: &String) -> (r: bool)
    ensures
        r == (a@ == b@),
{
    *a == *b
}

impl Clone for JsonValue {
    fn clone(&self) -> (r: Self)
        ensures
            r@ == self@,
    {
        self.duplicate()
    }
}

impl JsonValue {
    /// A copy of the document.
    pub fn duplicate(&self) -> (r: JsonValue)
        ensures
            r@ == self@,
        decreases self@,
    {
        match self {
            JsonValue::Null => JsonValue::Null,
            JsonValue::Bool(b) => JsonValue::Bool(*b),
            JsonValue::Number(i, t) => JsonValue::Number(*i, t.clone()),
            JsonValue::Str(s) => JsonValue::Str(s.clone()),
            JsonValue::Array(v) => {
                proof {
                    lemma_array_view(*v);
                }
                let ghost sv = self@->Array_0;
                let mut out: Vec<JsonValue> = Vec::new();
                let mut i: usize = 0;
                while i < v.len()
                    invariant
                        *self == JsonValue::Array(*v),
                        sv == self@->Array_0,
                        sv == item_views(v@),
                        i <= v.len(),
                        item_views(out@) =~= sv.take(i as int),
                    decreases v.len() - i,
                {
                    proof {
                        assert(decreases_to!(self@ => self@->Array_0));
                        assert(decreases_to!(sv => sv[i as int]));
                    }
                    assert(sv.len() == v.len());
                    assert(item_views(out@).len() == out@.len());
                    assert(out@.len() == i);
                    let c = v[i].duplicate();
                    assert(c@ == sv[i as int]);
                    let ghost before = out@;
                    assert(before.len() == i);
                    out.push(c);
                    assert(out@ == before.push(c));
                    assert(item_views(out@).len() == i + 1);
                    assert(item_views(out@)[i as int] == sv[i as int]);
                    assert(forall|k: int| 0 <= k < i ==> item_views(out@)[k] == item_views(before)[k]);
                    assert(forall|k: int| 0 <= k < i ==> item_views(before)[k] == sv[k]);
                    assert(item_views(out@) =~= sv.take(i + 1));
                    i = i + 1;
                }
                proof {
                    lemma_array_view(out);
                    assert(item_views(out@) =~= sv);
                }
                JsonValue::Array(out)
            },
            JsonValue::Object(m) => {
                proof {
                    lemma_object_view(*m);
                }
                let ghost sm = self@->Object_0;
                let mut out: Vec<(String, JsonValue)> = Vec::new();
                let mut i: usize = 0;
                while i < m.len()
                    invariant
                        *self == JsonValue::Object(*m),
                        sm == self@->Object_0,
                        sm == member_views(m@),
                        i <= m.len(),
                        member_views(out@) =~= sm.take(i as int),
                    decreases m.len() - i,
                {
                    proof {
                        assert(decreases_to!(self@ => self@->Object_0));
                        assert(decreases_to!(sm => sm[i as int]));
                        assert(decreases_to!(sm[i as int] => sm[i as int].1));
                    }
                    assert(sm.len() == m.len());
                    assert(member_views(out@).len() == out@.len());
                    assert(out@.len() == i);
                    let c = m[i].1.duplicate();
                    let name = m[i].0.clone();
                    assert((name@, c@) == sm[i as int]);
                    let ghost before = out@;
                    out.push((name, c));
                    assert(out@ == before.push((name, c)));
                    assert(member_views(out@) =~= sm.take(i + 1));
                    i = i + 1;
                }
                proof {
                    lemma_object_view(out);
                    assert(member_views(out@) =~= sm);
                }
                JsonValue::Object(out)
            },
        }
    }

    /// The member `key` of an object (`None` for other values or a missing
    /// member).
    pub fn get(&self, key: &str) -> (r: Option<&JsonValue>)
        ensures
            view_opt(r) == jget(self@, key@),
    {
        match self {
            JsonValue::Object(m) => {
                let k = key.to_owned();
                let ghost mv = self@->Object_0;
                let mut i: usize = 0;
                while i < m.len()
                    invariant
                        *self == JsonValue::Object(*m),
                        mv == self@->Object_0,
                        k@ == key@,
                        i <= m.len(),
                        lookup_from(mv, key@, 0) == lookup_from(mv, key@, i as int),
                    decreases m.len() - i,
                {
                    if same_text(&m[i].0, &k) {
                        return Some(&m[i].1);
                    }
                    i = i + 1;
                }
                None
            },
            _ => None,
        }
    }

    /// `as_i64`.
    pub fn as_i64(&self) -> (r: Option<i64>)
        ensures
            r == as_int(Some(self@)),
    {
        match self {
            JsonValue::Number(i, _) => *i,
            _ => None,
        }
    }

    /// `as_str`.
    pub fn as_str(&self) -> (r: Option<&str>)
        ensures
            r matches Some(s) ==> as_text(Some(self@)) == Some(s@),
            r is None ==> as_text(Some(self@)) is None,
    {
        match self {
            JsonValue::Str(s) => Some(s.as_str()),
            _ => None,
        }
    }

    /// `as_bool`.
    pub fn as_bool(&self) -> (r: Option<bool>)
        ensures
            r == as_flag(Some(self@)),
    {
        match self {
            JsonValue::Bool(b) => Some(*b),
            _ => None,
        }
    }

    /// `as_array`.
    pub fn as_array(&self) -> (r: Option<&Vec<JsonValue>>)
        ensures
            r matches Some(v) ==> as_list(Some(self@)) == Some(item_views(v@)),
            r is None ==> as_list(Some(self@)) is None,
    {
        match self {
            JsonValue::Array(v) => {
                assert(item_views(v@) =~= self@->Array_0);
                Some(v)
            },
            _ => None,
        }
    }
}

/// Whether two documents are the same (members of objects compared in order).
pub fn json_equal(a: &JsonValue, b: &JsonValue) -> (r: bool)
    ensures
        r == (a@ == b@),
    decreases a@,
{
    match (a, b) {
        (JsonValue::Null, JsonValue::Null) => true,
        (JsonValue::Bool(x), JsonValue::Bool(y)) => *x == *y,
        (JsonValue::Number(i, t), JsonValue::Number(j, u)) => {
            let same_int = match (i, j) {
                (Some(p), Some(q)) => *p == *q,
                (None, None) => true,
                _ => false,
            };
            same_int && same_text(t, u)
        },
        (JsonValue::Str(s), JsonValue::Str(t)) => same_text(s, t),
        (JsonValue::Array(v), JsonValue::Array(w)) => {
            proof {
                lemma_array_view(*v);
                lemma_array_view(*w);
            }
            if v.len() != w.len() {
                assert(a@->Array_0.len() != b@->Array_0.len());
                return false;
            }
            let ghost sv = a@->Array_0;
            let ghost sw = b@->Array_0;
            let mut i: usize = 0;
            while i < v.len()
                invariant
                    *a == JsonValue::Array(*v),
                    *b == JsonValue::Array(*w),
                    sv == a@->Array_0,
                    sw == b@->Array_0,
                    sv == item_views(v@),
                    sw == item_views(w@),
                    v.len() == w.len(),
                    i <= v.len(),
                    forall|k: int| 0 <= k < i ==> sv[k] == sw[k],
                decreases v.len() - i,
            {
                proof {
                    assert(decreases_to!(a@ => a@->Array_0));
                    assert(decreases_to!(sv => sv[i as int]));
                }
                if !json_equal(&v[i], &w[i]) {
                    assert(sv[i as int] != sw[i as int]);
                    return false;
                }
                i = i + 1;
            }
            assert(sv =~= sw);
            true
        },
        (JsonValue::Object(m), JsonValue::Object(n)) => {
            proof {
                lemma_object_view(*m);
                lemma_object_view(*n);
            }
            if m.len() != n.len() {
                assert(a@->Object_0.len() != b@->Object_0.len());
                return false;
            }
            let ghost sm = a@->Object_0;
            let ghost sn = b@->Object_0;
            let mut i: usize = 0;
            while i < m.len()
                invariant
                    *a == JsonValue::Object(*m),
                    *b == JsonValue::Object(*n),
                    sm == a@->Object_0,
                    sn == b@->Object_0,
                    sm == member_views(m@),
                    sn == member_views(n@),
                    m.len() == n.len(),
                    i <= m.len(),
                    forall|k: int| 0 <= k < i ==> sm[k] == sn[k],
                decreases m.len() - i,
            {
                proof {
                    assert(decreases_to!(a@ => a@->Object_0));
                    assert(decreases_to!(sm => sm[i as int]));
                    assert(decreases_to!(sm[i as int] => sm[i as int].1));
                }
                if !same_text(&m[i].0, &n[i].0) {
                    assert(sm[i as int].0 != sn[i as int].0);
                    return false;
                }
                if !json_equal(&m[i].1, &n[i].1) {
                    assert(sm[i as int].1 != sn[i as int].1);
                    return false;
                }
                i = i + 1;
            }
            assert(sm =~= sn);
            true
        },
        _ => false,
    }
}

#[verifier::external_type_specification]
#[verifier::external_body]
pub struct ExSerdeJsonValue(serde_json::Value);

/// The document that `serde_json::from_str::<serde_json::Value>` reads from
/// `text`, or `None` where it reports an error.
pub uninterp spec fn json_parse_result(text: Seq<char>) -> Option<JsonView>;

/// Converts a `serde_json::Value` member by member: a number keeps `as_i64`
/// and its `to_string` text; an object's members come in the map's order.
#[verifier::external_body]
fn json_from_serde(v: serde_json::Value) -> JsonValue {
    match v {
        serde_json::Value::Null => JsonValue::Null,
        serde_json::Value::Bool(b) => JsonValue::Bool(b),
        serde_json::Value::Number(n) => JsonValue::Number(n.as_i64(), n.to_string()),
        serde_json::Value::String(s) => JsonValue::Str(s),
        serde_json::Value::Array(a) => JsonValue::Array(a.into_iter().map(json_from_serde).collect()),
        serde_json::Value::Object(o) => JsonValue::Object(
            o.into_iter().map(|(k, x)| (k, json_from_serde(x))).collect(),
        ),
    }
}

/// `serde_json::from_str::<serde_json::Value>(text)`, converted to a
/// `JsonValue`; `None` where serde_json reports an error.
#[verifier::external_body]
pub(crate) fn parse_json(text: &str) -> (r: Option<JsonValue>)
    ensures
        view_opt_owned(r) == json_parse_result(text@),
{
    serde_json::from_str::<serde_json::Value>(text).ok().map(json_from_serde)
}

/// The view of an optional document.
pub open spec fn view_opt_owned(r: Option<JsonValue>) -> Option<JsonView> {
    match r {
        Some(x) => Some(x@),
        None => None,
    }
}

} // verus!
