//! Tree formatting: turns a filtered accessibility tree into indexed elements
//! and the text description of the screen.
use vstd::prelude::*;

use crate::coord::{bounds_scalable, bounds_to_normalized, four_ints, normalized_text, scalable_bounds};
use crate::json::{
    as_flag, as_text, children_of, flag_of, int_or, jget, lemma_child_smaller, lookup_from,
    text_or_empty, view_opt, view_opt_owned, item_views, JsonValue, JsonView,
};
use crate::filter::int_field;
use crate::state::{lemma_children_smaller, preorder, preorder_from, Element, PhoneState};
use crate::text::{
    all_digits, chars_of, copy_range, int_to_dec, is_digit, join, join_chars, lemma_join_concat,
    lemma_join_first, lemma_join_free_of, lemma_nat_to_dec_value, lemma_split_join, lines,
    nat_to_dec, push_int, push_nat, push_str, rfind, rfind_chars, split_on, string_of, views,
};

verus! {

// ---- one node ----

/// `get("boundsInScreen").cloned().unwrap_or_default()`.
pub open spec fn bounds_object(node: JsonView) -> JsonView {
    match jget(node, "boundsInScreen"@) {
        Some(b) => b,
        None => JsonView::Null,
    }
}

/// `left,top,right,bottom` as read from the node (missing numbers are 0).
pub open spec fn raw_bounds_text(node: JsonView) -> Seq<char> {
    let b = bounds_object(node);
    int_to_dec(int_or(b, "left"@, 0) as int) + ","@ + int_to_dec(int_or(b, "top"@, 0) as int) + ","@
        + int_to_dec(int_or(b, "right"@, 0) as int) + ","@ + int_to_dec(
        int_or(b, "bottom"@, 0) as int,
    )
}

/// Whether normalizing the node's bounds stays within `i32`.
pub open spec fn node_scalable(node: JsonView) -> bool {
    scalable_bounds(raw_bounds_text(node))
}

/// The bounds text of an element: normalized when asked for and the screen
/// size is known and the four numbers are `i32`s; as read otherwise.
pub open spec fn element_bounds(node: JsonView, width: i32, height: i32, use_normalized: bool) -> Seq<
    char,
> {
    let raw = raw_bounds_text(node);
    if use_normalized && width > 0 && height > 0 && four_ints(raw) is Some {
        normalized_text(four_ints(raw)->0, width as int, height as int)
    } else {
        raw
    }
}

/// The first of `text`, `contentDescription`, `resourceId`, `className` that
/// the node has, when it is a string; empty otherwise.
pub open spec fn element_text(node: JsonView) -> Seq<char> {
    let v = if jget(node, "text"@) is Some {
        jget(node, "text"@)
    } else if jget(node, "contentDescription"@) is Some {
        jget(node, "contentDescription"@)
    } else if jget(node, "resourceId"@) is Some {
        jget(node, "resourceId"@)
    } else {
        jget(node, "className"@)
    };
    match as_text(v) {
        Some(s) => s,
        None => Seq::empty(),
    }
}

/// The class name after its last `.`.
pub open spec fn short_class(class_name: Seq<char>) -> Seq<char> {
    match rfind(class_name, "."@) {
        Some(i) => class_name.skip(i + 1),
        None => class_name,
    }
}

/// `isChecked=True` / `isChecked=False` for checkable nodes, empty otherwise.
pub open spec fn checked_text(node: JsonView) -> Seq<char> {
    if flag_of(node, "isCheckable"@) {
        if flag_of(node, "isChecked"@) {
            "isChecked=True"@
        } else {
            "isChecked=False"@
        }
    } else {
        Seq::empty()
    }
}

/// The checked state of an element reports a checkable node's `isChecked`
/// member: it reads `isChecked=True` exactly when the node's `isCheckable`
/// and `isChecked` members are both the boolean `true`, `isChecked=False`
/// when `isCheckable` is `true` and `isChecked` is anything else (missing,
/// `false`, or not a boolean), and it is empty when `isCheckable` is not the
/// boolean `true`.
pub proof fn lemma_checked_state(
    e: Element,
    node: JsonView,
    index: int,
    width: i32,
    height: i32,
    use_normalized: bool,
)
    requires
        element_of(e, node, index, width, height, use_normalized),
    ensures
        e.checked_state@ == "isChecked=True"@ <==> (jget(node, "isCheckable"@) == Some(
            JsonView::Bool(true),
        ) && jget(node, "isChecked"@) == Some(JsonView::Bool(true))),
        e.checked_state@ == "isChecked=False"@ <==> (jget(node, "isCheckable"@) == Some(
            JsonView::Bool(true),
        ) && jget(node, "isChecked"@) != Some(JsonView::Bool(true))),
        e.checked_state@.len() == 0 <==> jget(node, "isCheckable"@) != Some(JsonView::Bool(true)),
{
    reveal_strlit("isChecked=True");
    reveal_strlit("isChecked=False");
    assert("isChecked=True"@.len() != "isChecked=False"@.len());
}

/// `e` is the element made of `node` with the given index.
pub open spec fn element_of(
    e: Element,
    node: JsonView,
    index: int,
    width: i32,
    height: i32,
    use_normalized: bool,
) -> bool {
    &&& e.index == index
    &&& e.resource_id@ == text_or_empty(node, "resourceId"@)
    &&& e.class_name@ == short_class(text_or_empty(node, "className"@))
    &&& e.checked_state@ == checked_text(node)
    &&& e.text@ == element_text(node)
    &&& e.bounds@ == element_bounds(node, width, height, use_normalized)
    &&& e.children@.len() == 0
}

/// The string value of the member `key`, or empty.
pub fn text_field(v: &JsonValue, key: &str) -> (r: String)
    ensures
        r@ == text_or_empty(v@, key@),
{
    match v.get(key) {
        Some(x) => match x.as_str() {
            Some(s) => s.to_owned(),
            None => String::new(),
        },
        None => String::new(),
    }
}

/// `get(key).and_then(as_bool).unwrap_or(false)`.
pub fn flag_field(v: &JsonValue, key: &str) -> (r: bool)
    ensures
        r == flag_of(v@, key@),
{
    match v.get(key) {
        Some(x) => match x.as_bool() {
            Some(b) => b,
            None => false,
        },
        None => false,
    }
}

/// The `left,top,right,bottom` text of a node's `boundsInScreen`, a missing
/// side read as 0.
fn raw_bounds_string(node: &JsonValue) -> (r: String)
    ensures
        r@ == raw_bounds_text(node@),
{
    let bounds = match node.get("boundsInScreen") {
        Some(b) => b.duplicate(),
        None => JsonValue::Null,
    };
    let left = int_field(&bounds, "left", 0);
    let top = int_field(&bounds, "top", 0);
    let right = int_field(&bounds, "right", 0);
    let bottom = int_field(&bounds, "bottom", 0);
    let mut raw: Vec<char> = Vec::new();
    push_int(&mut raw, left);
    push_str(&mut raw, ",");
    push_int(&mut raw, top);
    push_str(&mut raw, ",");
    push_int(&mut raw, right);
    push_str(&mut raw, ",");
    push_int(&mut raw, bottom);
    string_of(raw.as_slice())
}

/// Builds the element for one node (without children).
pub fn format_node(
    node: &JsonValue,
    index: usize,
    screen_width: i32,
    screen_height: i32,
    use_normalized: bool,
) -> (r: Element)
    requires
        use_normalized && screen_width > 0 && screen_height > 0 ==> node_scalable(node@),
    ensures
        element_of(r, node@, index as int, screen_width, screen_height, use_normalized),
        r.checked_state@ == "isChecked=True"@ <==> (jget(node@, "isCheckable"@) == Some(
            JsonView::Bool(true),
        ) && jget(node@, "isChecked"@) == Some(JsonView::Bool(true))),
        r.checked_state@ == "isChecked=False"@ <==> (jget(node@, "isCheckable"@) == Some(
            JsonView::Bool(true),
        ) && jget(node@, "isChecked"@) != Some(JsonView::Bool(true))),
{
    let bounds_str = raw_bounds_string(node);
    let bounds_str = if use_normalized && screen_width > 0 && screen_height > 0 {
        match bounds_to_normalized(bounds_str.as_str(), screen_width, screen_height) {
            Ok(s) => s,
            Err(_) => bounds_str,
        }
    } else {
        bounds_str
    };
    let text_value = match node.get("text") {
        Some(v) => Some(v),
        None => match node.get("contentDescription") {
            Some(v) => Some(v),
            None => match node.get("resourceId") {
                Some(v) => Some(v),
                None => node.get("className"),
            },
        },
    };
    let text = match text_value {
        Some(v) => match v.as_str() {
            Some(s) => s.to_owned(),
            None => String::new(),
        },
        None => String::new(),
    };
    let class_name = text_field(node, "className");
    let cc = chars_of(class_name.as_str());
    let dot = chars_of(".");
    let n = cc.len();
    let short = match rfind_chars(cc.as_slice(), dot.as_slice()) {
        Some(i) => {
            proof {
                crate::text::lemma_rfind_bounds(cc@, dot@);
                reveal_strlit(".");
            }
            string_of(copy_range(cc.as_slice(), i + 1, n).as_slice())
        },
        None => class_name,
    };
    let checked_state = if flag_field(node, "isCheckable") {
        if flag_field(node, "isChecked") {
            "isChecked=True".to_owned()
        } else {
            "isChecked=False".to_owned()
        }
    } else {
        String::new()
    };
    let r = Element {
        index,
        resource_id: text_field(node, "resourceId"),
        class_name: short,
        checked_state,
        text,
        bounds: bounds_str,
        children: Vec::new(),
    };
    proof {
        lemma_checked_state(r, node@, index as int, screen_width, screen_height, use_normalized);
    }
    r
}

// ---- the whole tree ----

/// The nodes of a tree, depth-first in document order.
pub open spec fn json_preorder(node: JsonView) -> Seq<JsonView>
    decreases node, children_of(node).len() + 1,
{
    seq![node] + json_preorder_from(node, 0)
}

/// The subtrees of the children of `parent` from position `i` on, flattened.
pub open spec fn json_preorder_from(parent: JsonView, i: int) -> Seq<JsonView>
    decreases parent, children_of(parent).len() - i,
{
    if i < 0 || i >= children_of(parent).len() {
        seq![]
    } else {
        proof {
            lemma_child_smaller(parent, i);
        }
        json_preorder(children_of(parent)[i]) + json_preorder_from(parent, i + 1)
    }
}

/// Every node of the tree can have its bounds normalized within `i32`.
pub open spec fn tree_scalable(node: JsonView) -> bool {
    forall|k: int| 0 <= k < json_preorder(node).len() ==> node_scalable(
        #[trigger] json_preorder(node)[k],
    )
}

/// `es` are the elements made of the nodes `ns`, indexed from `first` on.
pub open spec fn elements_of(
    es: Seq<Element>,
    ns: Seq<JsonView>,
    first: int,
    width: i32,
    height: i32,
    use_normalized: bool,
) -> bool {
    &&& es.len() == ns.len()
    &&& forall|k: int|
        0 <= k < es.len() ==> element_of(
            #[trigger] es[k],
            ns[k],
            first + k,
            width,
            height,
            use_normalized,
        )
}

/// `small` occurs in `big` starting at `off`.
pub open spec fn embedded_at(big: Seq<JsonView>, small: Seq<JsonView>, off: int) -> bool {
    &&& 0 <= off
    &&& off + small.len() <= big.len()
    &&& forall|k: int| 0 <= k < small.len() ==> big[off + k] == #[trigger] small[k]
}

proof fn lemma_scalable_parts(node: JsonView, i: int)
    requires
        tree_scalable(node),
        0 <= i < children_of(node).len(),
    ensures
        tree_scalable(children_of(node)[i]),
        node_scalable(node),
{
    let pre = json_preorder(node);
    assert(pre[0] == node);
    let small = json_preorder(children_of(node)[i]);
    let whole = json_preorder_from(node, 0);
    lemma_preorder_from_contains(node, 0, i);
    let off = choose|off: int| embedded_at(whole, small, off);
    assert(pre == seq![node] + whole);
    assert forall|k: int| 0 <= k < small.len() implies node_scalable(#[trigger] small[k]) by {
        assert(pre[1 + off + k] == whole[off + k]);
    }
}

proof fn lemma_preorder_from_contains(node: JsonView, j: int, i: int)
    requires
        0 <= j <= i < children_of(node).len(),
    ensures
        exists|off: int|
            embedded_at(
                json_preorder_from(node, j),
                json_preorder(children_of(node)[i]),
                off,
            ),
    decreases i - j,
{
    let sub = json_preorder(children_of(node)[j]);
    let rest = json_preorder_from(node, j + 1);
    let small = json_preorder(children_of(node)[i]);
    assert(json_preorder_from(node, j) == sub + rest);
    if j == i {
        assert(embedded_at(sub + rest, small, 0));
    } else {
        lemma_preorder_from_contains(node, j + 1, i);
        let off = choose|off: int| embedded_at(rest, small, off);
        assert forall|k: int| 0 <= k < small.len() implies (sub + rest)[sub.len() + off + k]
            == #[trigger] small[k] by {
            assert(rest[off + k] == small[k]);
        }
        assert(embedded_at(sub + rest, small, sub.len() + off));
    }
}

/// Flattens the tree into elements indexed depth-first from `*counter` on,
/// advancing the counter past them.
pub fn flatten_with_index(
    node: &JsonValue,
    counter: &mut usize,
    screen_width: i32,
    screen_height: i32,
    use_normalized: bool,
) -> (r: Vec<Element>)
    requires
        *old(counter) + json_preorder(node@).len() <= usize::MAX,
        use_normalized && screen_width > 0 && screen_height > 0 ==> tree_scalable(node@),
    ensures
        elements_of(
            r@,
            json_preorder(node@),
            *old(counter) as int,
            screen_width,
            screen_height,
            use_normalized,
        ),
        *final(counter) == *old(counter) + json_preorder(node@).len(),
    decreases node@,
{
    proof {
        assert(json_preorder(node@)[0] == node@);
        if use_normalized && screen_width > 0 && screen_height > 0 {
            assert(node_scalable(json_preorder(node@)[0]));
        }
    }
    let mut results: Vec<Element> = Vec::new();
    let element = format_node(node, *counter, screen_width, screen_height, use_normalized);
    *counter = *counter + 1;
    results.push(element);
    let ghost first = *old(counter) as int;
    let ghost kids = children_of(node@);
    proof {
        assert(json_preorder(node@) == seq![node@] + json_preorder_from(node@, 0));
    }
    match node.get("children") {
        Some(c) => match c.as_array() {
            Some(children) => {
                let mut i: usize = 0;
                while i < children.len()
                    invariant
                        kids == children_of(node@),
                        item_views(children@) == kids,
                        i <= children.len(),
                        first == *old(counter) as int,
                        first + json_preorder(node@).len() <= usize::MAX,
                        json_preorder(node@) == seq![node@] + json_preorder_from(node@, 0),
                        use_normalized && screen_width > 0 && screen_height > 0 ==> tree_scalable(
                            node@,
                        ),
                        json_preorder(node@).len() == results@.len() + json_preorder_from(
                            node@,
                            i as int,
                        ).len(),
                        *counter == first + results@.len(),
                        elements_of(
                            results@,
                            json_preorder(node@).take(results@.len() as int),
                            first,
                            screen_width,
                            screen_height,
                            use_normalized,
                        ),
                        json_preorder(node@).skip(results@.len() as int) == json_preorder_from(
                            node@,
                            i as int,
                        ),
                    decreases children.len() - i,
                {
                    proof {
                        lemma_child_smaller(node@, i as int);
                        assert(children@[i as int]@ == kids[i as int]);
                        if use_normalized && screen_width > 0 && screen_height > 0 {
                            lemma_scalable_parts(node@, i as int);
                        }
                    }
                    let ghost sub = json_preorder(kids[i as int]);
                    let ghost rest = json_preorder_from(node@, i + 1);
                    assert(json_preorder_from(node@, i as int) == sub + rest);
                    let ghost before = results@;
                    let ghost c0 = *counter as int;
                    let mut more = flatten_with_index(
                        &children[i],
                        counter,
                        screen_width,
                        screen_height,
                        use_normalized,
                    );
                    let ghost more_v = more@;
                    results.append(&mut more);
                    proof {
                        let pre = json_preorder(node@);
                        assert(pre.skip(before.len() as int) == sub + rest);
                        assert(pre.skip(results@.len() as int) =~= rest) by {
                            assert forall|k: int| 0 <= k < rest.len() implies pre.skip(
                                results@.len() as int,
                            )[k] == rest[k] by {
                                assert(pre.skip(before.len() as int)[sub.len() + k] == rest[k]);
                            }
                        }
                        assert forall|k: int| 0 <= k < results@.len() implies element_of(
                            #[trigger] results@[k],
                            pre.take(results@.len() as int)[k],
                            first + k,
                            screen_width,
                            screen_height,
                            use_normalized,
                        ) by {
                            if k < before.len() {
                                assert(results@[k] == before[k]);
                                assert(pre.take(results@.len() as int)[k] == pre.take(
                                    before.len() as int,
                                )[k]);
                            } else {
                                let kk = k - before.len();
                                assert(results@[k] == more_v[kk]);
                                assert(pre.take(results@.len() as int)[k] == pre.skip(
                                    before.len() as int,
                                )[kk]);
                                assert((sub + rest)[kk] == sub[kk]);
                            }
                        }
                    }
                    i = i + 1;
                }
            },
            None => {},
        },
        None => {},
    }
    proof {
        let pre = json_preorder(node@);
        if kids.len() == 0 {
            assert(json_preorder_from(node@, 0) == Seq::<JsonView>::empty());
            assert(pre =~= seq![node@]);
        }
        assert(json_preorder_from(node@, kids.len() as int) == Seq::<JsonView>::empty());
        assert(pre.take(results@.len() as int) =~= pre);
    }
    results
}

/// Every node of `q` can have its bounds normalized within `i32`.
pub open spec fn all_scalable(q: Seq<JsonView>) -> bool {
    forall|k: int| 0 <= k < q.len() ==> node_scalable(#[trigger] q[k])
}

proof fn lemma_all_scalable_concat(a: Seq<JsonView>, b: Seq<JsonView>)
    ensures
        all_scalable(a + b) == (all_scalable(a) && all_scalable(b)),
{
    if all_scalable(a + b) {
        assert forall|k: int| 0 <= k < a.len() implies node_scalable(#[trigger] a[k]) by {
            assert((a + b)[k] == a[k]);
        }
        assert forall|k: int| 0 <= k < b.len() implies node_scalable(#[trigger] b[k]) by {
            assert((a + b)[a.len() + k] == b[k]);
        }
    }
    if all_scalable(a) && all_scalable(b) {
        assert forall|k: int| 0 <= k < (a + b).len() implies node_scalable(#[trigger] (a + b)[k]) by {
            if k < a.len() {
                assert((a + b)[k] == a[k]);
            } else {
                assert((a + b)[k] == b[k - a.len()]);
            }
        }
    }
}

/// Whether a node's bounds can be normalized within `i32`.
fn node_scalable_check(node: &JsonValue) -> (b: bool)
    ensures
        b == node_scalable(node@),
{
    let raw = raw_bounds_string(node);
    bounds_scalable(raw.as_str())
}

/// The number of nodes of the tree, when it is below `limit` and, where
/// `need_scalable` asks, every node's bounds can be normalized; `None`
/// otherwise.
fn checked_size(node: &JsonValue, need_scalable: bool, limit: usize) -> (r: Option<usize>)
    ensures
        match r {
            Some(n) => n == json_preorder(node@).len() && n < limit && (need_scalable
                ==> tree_scalable(node@)),
            None => json_preorder(node@).len() >= limit || (need_scalable && !tree_scalable(
                node@,
            )),
        },
    decreases node@,
{
    proof {
        assert(json_preorder(node@) == seq![node@] + json_preorder_from(node@, 0));
        assert(tree_scalable(node@) == all_scalable(json_preorder(node@)));
        lemma_all_scalable_concat(seq![node@], json_preorder_from(node@, 0));
        assert(all_scalable(seq![node@]) == node_scalable(node@)) by {
            assert(seq![node@][0] == node@);
        }
    }
    if limit <= 1 {
        return None;
    }
    if need_scalable && !node_scalable_check(node) {
        return None;
    }
    let mut count: usize = 1;
    let ghost kids = children_of(node@);
    match node.get("children") {
        Some(c) => match c.as_array() {
            Some(children) => {
                let mut i: usize = 0;
                while i < children.len()
                    invariant
                        kids == children_of(node@),
                        item_views(children@) == kids,
                        i <= children.len(),
                        1 <= count < limit,
                        count + json_preorder_from(node@, i as int).len() == json_preorder(
                            node@,
                        ).len(),
                        json_preorder(node@) == seq![node@] + json_preorder_from(node@, 0),
                        need_scalable ==> node_scalable(node@),
                        need_scalable ==> (all_scalable(json_preorder_from(node@, 0))
                            == all_scalable(json_preorder_from(node@, i as int))),
                        tree_scalable(node@) == (node_scalable(node@) && all_scalable(
                            json_preorder_from(node@, 0),
                        )),
                    decreases children.len() - i,
                {
                    proof {
                        lemma_child_smaller(node@, i as int);
                        assert(children@[i as int]@ == kids[i as int]);
                    }
                    let ghost sub = json_preorder(kids[i as int]);
                    let ghost rest = json_preorder_from(node@, i + 1);
                    assert(json_preorder_from(node@, i as int) == sub + rest);
                    proof {
                        lemma_all_scalable_concat(sub, rest);
                        assert(tree_scalable(kids[i as int]) == all_scalable(sub));
                    }
                    match checked_size(&children[i], need_scalable, limit - count) {
                        Some(n) => {
                            count = count + n;
                        },
                        None => {
                            return None;
                        },
                    }
                    i = i + 1;
                }
            },
            None => {},
        },
        None => {},
    }
    proof {
        assert(json_preorder_from(node@, kids.len() as int) == Seq::<JsonView>::empty());
        assert(all_scalable(Seq::<JsonView>::empty()));
    }
    Some(count)
}

/// Whether the indexed formatter is defined on these inputs: the tree has
/// fewer than `usize::MAX` nodes and, when coordinates are normalized on a
/// known screen, every node's bounds can be normalized within `i32`.
pub fn indexed_accepts_check(
    filtered_tree: Option<&JsonValue>,
    screen_width: i32,
    screen_height: i32,
    use_normalized: bool,
) -> (b: bool)
    ensures
        b == indexed_accepts(view_opt(filtered_tree), screen_width, screen_height, use_normalized),
{
    match filtered_tree {
        None => true,
        Some(t) => checked_size(
            t,
            use_normalized && screen_width > 0 && screen_height > 0,
            usize::MAX,
        ).is_some(),
    }
}

// ---- phone state ----

/// The `text` of the `focusedElement`, or empty.
pub open spec fn focused_text(phone_state: JsonView) -> Seq<char> {
    match jget(phone_state, "focusedElement"@) {
        Some(fe) => text_or_empty(fe, "text"@),
        None => seq![],
    }
}

/// A string field: missing reads as empty, a string as itself; anything
/// else is an error.
pub open spec fn string_field(v: Option<JsonView>) -> Option<Seq<char>> {
    match v {
        None => Some(seq![]),
        Some(JsonView::Str(s)) => Some(s),
        Some(_) => None,
    }
}

/// A boolean field: missing reads as `false`; anything but a boolean is an
/// error.
pub open spec fn bool_field(v: Option<JsonView>) -> Option<bool> {
    match v {
        None => Some(false),
        Some(JsonView::Bool(b)) => Some(b),
        Some(_) => None,
    }
}

/// An optional value: missing or `null` reads as `None`.
pub open spec fn optional_field(v: Option<JsonView>) -> Option<JsonView> {
    match v {
        None => None,
        Some(JsonView::Null) => None,
        Some(x) => Some(x),
    }
}

/// The item at position `k`, if any.
pub open spec fn item(a: Seq<JsonView>, k: int) -> Option<JsonView> {
    if 0 <= k < a.len() {
        Some(a[k])
    } else {
        None
    }
}

/// The four fields read from the four values, or `None` when one has the
/// wrong type.
pub open spec fn read_fields(
    app: Option<JsonView>,
    package: Option<JsonView>,
    editable: Option<JsonView>,
    focused: Option<JsonView>,
) -> Option<(Seq<char>, Seq<char>, bool, Option<JsonView>)> {
    match (string_field(app), string_field(package), bool_field(editable)) {
        (Some(a), Some(p), Some(e)) => Some((a, p, e, optional_field(focused))),
        _ => None,
    }
}

/// The phone state that serde reads from a JSON value: from an object by the
/// names `currentApp`, `packageName`, `isEditable`, `focusedElement` (other
/// members ignored); from an array of at most four items by position;
/// `None` for anything else or on a type mismatch.
pub open spec fn phone_fields(raw: JsonView) -> Option<(Seq<char>, Seq<char>, bool, Option<JsonView>)> {
    match raw {
        JsonView::Object(m) => read_fields(
            lookup_from(m, "currentApp"@, 0),
            lookup_from(m, "packageName"@, 0),
            lookup_from(m, "isEditable"@, 0),
            lookup_from(m, "focusedElement"@, 0),
        ),
        JsonView::Array(a) => if a.len() > 4 {
            None
        } else {
            read_fields(item(a, 0), item(a, 1), item(a, 2), item(a, 3))
        },
        _ => None,
    }
}

/// `ps` holds the fields read, or the default phone state when reading failed.
pub open spec fn phone_state_is(
    ps: PhoneState,
    fields: Option<(Seq<char>, Seq<char>, bool, Option<JsonView>)>,
) -> bool {
    match fields {
        Some((a, p, e, f)) => ps.current_app@ == a && ps.package_name@ == p && ps.is_editable == e
            && view_opt_owned(ps.focused_element) == f,
        None => ps.current_app@ == Seq::<char>::empty() && ps.package_name@ == Seq::<char>::empty()
            && !ps.is_editable && ps.focused_element is None,
    }
}

/// The `text` of the focused element of a phone state.
pub fn get_focused_text(phone_state: &JsonValue) -> (r: String)
    ensures
        r@ == focused_text(phone_state@),
{
    match phone_state.get("focusedElement") {
        Some(fe) => text_field(fe, "text"),
        None => String::new(),
    }
}

fn read_string(v: Option<&JsonValue>) -> (r: Option<String>)
    ensures
        match string_field(view_opt(v)) {
            Some(s) => r matches Some(t) && t@ == s,
            None => r is None,
        },
{
    match v {
        None => Some(String::new()),
        Some(JsonValue::Str(s)) => Some(s.clone()),
        Some(_) => None,
    }
}

fn read_bool(v: Option<&JsonValue>) -> (r: Option<bool>)
    ensures
        r == bool_field(view_opt(v)),
{
    match v {
        None => Some(false),
        Some(JsonValue::Bool(b)) => Some(*b),
        Some(_) => None,
    }
}

fn read_optional(v: Option<&JsonValue>) -> (r: Option<JsonValue>)
    ensures
        view_opt_owned(r) == optional_field(view_opt(v)),
{
    match v {
        None => None,
        Some(JsonValue::Null) => None,
        Some(x) => Some(x.duplicate()),
    }
}

fn phone_state_from(
    app: Option<&JsonValue>,
    package: Option<&JsonValue>,
    editable: Option<&JsonValue>,
    focused: Option<&JsonValue>,
) -> (r: PhoneState)
    ensures
        phone_state_is(
            r,
            read_fields(view_opt(app), view_opt(package), view_opt(editable), view_opt(focused)),
        ),
{
    match (read_string(app), read_string(package), read_bool(editable)) {
        (Some(a), Some(p), Some(e)) => PhoneState {
            current_app: a,
            package_name: p,
            is_editable: e,
            focused_element: read_optional(focused),
        },
        _ => PhoneState::default(),
    }
}

/// Reads the phone state as serde would, falling back to the default one.
pub fn parse_phone_state(raw: &JsonValue) -> (r: PhoneState)
    ensures
        phone_state_is(r, phone_fields(raw@)),
{
    match raw {
        JsonValue::Object(_) => phone_state_from(
            raw.get("currentApp"),
            raw.get("packageName"),
            raw.get("isEditable"),
            raw.get("focusedElement"),
        ),
        JsonValue::Array(a) => {
            proof {
                crate::json::lemma_array_view(*a);
            }
            let n = a.len();
            if n > 4 {
                PhoneState::default()
            } else {
                let i0 = if n > 0 { Some(&a[0]) } else { None };
                let i1 = if n > 1 { Some(&a[1]) } else { None };
                let i2 = if n > 2 { Some(&a[2]) } else { None };
                let i3 = if n > 3 { Some(&a[3]) } else { None };
                phone_state_from(i0, i1, i2, i3)
            }
        },
        _ => PhoneState::default(),
    }
}

/// The quoted text of the focused element, or `''`.
pub open spec fn focused_desc(ps: PhoneState) -> Seq<char> {
    match ps.focused_element {
        Some(fe) => match as_text(jget(fe@, "text"@)) {
            Some(t) => "'"@ + t + "'"@,
            None => "''"@,
        },
        None => "''"@,
    }
}

/// The text block describing the phone state.
pub open spec fn phone_text(ps: PhoneState) -> Seq<char> {
    "**Current Phone State:**\n\u{2022} **App:** "@ + ps.current_app@ + " ("@ + ps.package_name@
        + ")\n\u{2022} **Keyboard:** "@ + (if ps.is_editable {
        "Visible"@
    } else {
        "Hidden"@
    }) + "\n\u{2022} **Focused Element:** "@ + focused_desc(ps)
}

/// Describes the phone state: app, keyboard visibility, focused element.
pub fn format_phone_state(ps: &PhoneState) -> (r: String)
    ensures
        r@ == phone_text(*ps),
{
    let mut out = chars_of("**Current Phone State:**\n\u{2022} **App:** ");
    push_str(&mut out, ps.current_app.as_str());
    push_str(&mut out, " (");
    push_str(&mut out, ps.package_name.as_str());
    push_str(&mut out, ")\n\u{2022} **Keyboard:** ");
    if ps.is_editable {
        push_str(&mut out, "Visible");
    } else {
        push_str(&mut out, "Hidden");
    }
    push_str(&mut out, "\n\u{2022} **Focused Element:** ");
    let text = match &ps.focused_element {
        Some(fe) => match fe.get("text") {
            Some(t) => t.as_str(),
            None => None,
        },
        None => None,
    };
    match text {
        Some(t) => {
            push_str(&mut out, "'");
            push_str(&mut out, t);
            push_str(&mut out, "'");
        },
        None => {
            push_str(&mut out, "''");
        },
    }
    string_of(out.as_slice())
}

// ---- element list ----

/// Two spaces per level.
pub open spec fn indent(level: nat) -> Seq<char>
    decreases level,
{
    if level == 0 {
        seq![]
    } else {
        indent((level - 1) as nat) + "  "@
    }
}

/// `"s"`.
pub open spec fn quoted(s: Seq<char>) -> Seq<char> {
    "\""@ + s + "\""@
}

/// The quoted resource id and text, those that are not empty.
pub open spec fn detail_parts(e: Element) -> Seq<Seq<char>> {
    (if e.resource_id@.len() > 0 {
        seq![quoted(e.resource_id@)]
    } else {
        seq![]
    }) + (if e.text@.len() > 0 {
        seq![quoted(e.text@)]
    } else {
        seq![]
    })
}

/// The words of an element's line: `index.`, `class:`, the details, the
/// checked state and the bounds, each only when present.
pub open spec fn line_parts(e: Element) -> Seq<Seq<char>> {
    seq![nat_to_dec(e.index as nat) + "."@] + (if e.class_name@.len() > 0 {
        seq![e.class_name@ + ":"@]
    } else {
        seq![]
    }) + (if detail_parts(e).len() > 0 {
        seq![join(detail_parts(e), ", "@)]
    } else {
        seq![]
    }) + (if e.checked_state@.len() > 0 {
        seq!["; "@ + e.checked_state@]
    } else {
        seq![]
    }) + (if e.bounds@.len() > 0 {
        seq!["- ("@ + e.bounds@ + ")"@]
    } else {
        seq![]
    })
}

/// One element's line.
pub open spec fn element_line(e: Element, level: nat) -> Seq<char> {
    indent(level) + join(line_parts(e), " "@)
}

/// The lines of the elements from position `i` on, each followed by the lines
/// of its children one level deeper, separated by newlines.
pub open spec fn elements_text_from(s: Seq<Element>, i: int, level: nat) -> Seq<char>
    decreases s, s.len() - i,
{
    if i < 0 || i >= s.len() {
        seq![]
    } else {
        proof {
            lemma_children_smaller(s, i);
        }
        element_line(s[i], level) + (if s[i].children@.len() > 0 {
            "\n"@ + elements_text_from(s[i].children@, 0, level + 1)
        } else {
            seq![]
        }) + (if i + 1 < s.len() {
            "\n"@ + elements_text_from(s, i + 1, level)
        } else {
            seq![]
        })
    }
}

/// A newline and the text from position `i` on, when there is such a position.
pub open spec fn sep_tail(s: Seq<Element>, i: int, level: nat) -> Seq<char> {
    if i < s.len() {
        "\n"@ + elements_text_from(s, i, level)
    } else {
        seq![]
    }
}

proof fn lemma_preorder_len(s: Seq<Element>, i: int)
    requires
        0 <= i < s.len(),
    ensures
        preorder(s).len() >= 1 + preorder(s[i].children@).len(),
    decreases i,
{
    if i > 0 {
        lemma_preorder_len(s, i - 1);
        lemma_preorder_from_shrinks(s, i);
    }
    assert(preorder_from(s, i) == seq![s[i]] + preorder_from(s[i].children@, 0) + preorder_from(
        s,
        i + 1,
    ));
    lemma_preorder_from_shrinks(s, i);
}

proof fn lemma_preorder_from_shrinks(s: Seq<Element>, i: int)
    requires
        0 <= i <= s.len(),
    ensures
        preorder(s).len() >= preorder_from(s, i).len(),
    decreases i,
{
    if i > 0 {
        lemma_preorder_from_shrinks(s, i - 1);
        assert(preorder_from(s, i - 1) == seq![s[i - 1]] + preorder_from(s[i - 1].children@, 0)
            + preorder_from(s, i));
    }
}

/// With no children anywhere, the walk is the sequence itself.
proof fn lemma_preorder_flat(s: Seq<Element>, i: int)
    requires
        0 <= i <= s.len(),
        forall|k: int| 0 <= k < s.len() ==> (#[trigger] s[k]).children@.len() == 0,
    ensures
        preorder_from(s, i).len() == s.len() - i,
    decreases s.len() - i,
{
    if i < s.len() {
        lemma_preorder_flat(s, i + 1);
        assert(preorder_from(s[i].children@, 0) == Seq::<Element>::empty());
    }
}

/// A newline and the children's lines, for an element that has children.
pub open spec fn child_part(e: Element, level: nat) -> Seq<char> {
    if e.children@.len() > 0 {
        "\n"@ + elements_text_from(e.children@, 0, level + 1)
    } else {
        seq![]
    }
}

proof fn lemma_text_step(s: Seq<Element>, i: int, level: nat)
    requires
        0 <= i < s.len(),
    ensures
        elements_text_from(s, i, level) == element_line(s[i], level) + child_part(s[i], level)
            + sep_tail(s, i + 1, level),
{
}

/// Appends two spaces per level.
fn push_indent(out: &mut Vec<char>, level: usize)
    ensures
        final(out)@ == old(out)@ + indent(level as nat),
{
    let mut k: usize = 0;
    while k < level
        invariant
            k <= level,
            out@ == old(out)@ + indent(k as nat),
        decreases level - k,
    {
        push_str(out, "  ");
        assert(indent((k + 1) as nat) == indent(k as nat) + "  "@);
        k = k + 1;
    }
}

/// The line of one element followed by its children's lines.
fn push_entry(out: &mut Vec<char>, el: &Element, level: usize)
    requires
        level + 1 + preorder(el.children@).len() <= usize::MAX,
    ensures
        final(out)@ == old(out)@ + element_line(*el, level as nat) + child_part(*el, level as nat),
    decreases el.children@,
{
    push_indent(out, level);
    let line = element_words(el);
    out.extend_from_slice(line.as_slice());
    if el.children.len() > 0 {
        let sub = format_elements(el.children.as_slice(), level + 1);
        push_str(out, "\n");
        push_str(out, sub.as_str());
    }
}

/// Lists the elements, one line each, children indented below their parent.
pub fn format_elements(elements: &[Element], level: usize) -> (r: String)
    requires
        level + preorder(elements@).len() <= usize::MAX,
    ensures
        r@ == elements_text_from(elements@, 0, level as nat),
    decreases elements@, 0nat,
{
    let ghost s = elements@;
    let mut out: Vec<char> = Vec::new();
    let mut i: usize = 0;
    while i < elements.len()
        invariant
            s == elements@,
            i <= s.len(),
            level + preorder(s).len() <= usize::MAX,
            i == 0 ==> out@ == Seq::<char>::empty(),
            i > 0 ==> out@ + sep_tail(s, i as int, level as nat) == elements_text_from(
                s,
                0,
                level as nat,
            ),
        decreases s.len() - i,
    {
        let ghost before = out@;
        if i > 0 {
            push_str(&mut out, "\n");
        }
        let ghost after_sep = out@;
        proof {
            lemma_children_smaller(s, i as int);
            lemma_preorder_len(s, i as int);
            lemma_text_step(s, i as int, level as nat);
        }
        push_entry(&mut out, &elements[i], level);
        proof {
            let here = elements_text_from(s, i as int, level as nat);
            let entry = element_line(s[i as int], level as nat) + child_part(s[i as int], level as nat);
            assert(out@ == after_sep + entry);
            if i > 0 {
                assert(after_sep == before + "\n"@);
                assert(out@ + sep_tail(s, i + 1, level as nat) =~= before + sep_tail(
                    s,
                    i as int,
                    level as nat,
                ));
            } else {
                assert(after_sep =~= Seq::<char>::empty());
                assert(out@ + sep_tail(s, i + 1, level as nat) =~= here);
            }
        }
        i = i + 1;
    }
    proof {
        if s.len() == 0 {
            assert(elements_text_from(s, 0, level as nat) == Seq::<char>::empty());
        }
        assert(sep_tail(s, s.len() as int, level as nat) == Seq::<char>::empty());
        assert(out@ + Seq::<char>::empty() =~= out@);
    }
    string_of(out.as_slice())
}

/// The words of an element's line, joined by spaces.
fn element_words(el: &Element) -> (r: Vec<char>)
    ensures
        r@ == join(line_parts(*el), " "@),
{
    let mut parts: Vec<Vec<char>> = Vec::new();
    let mut first: Vec<char> = Vec::new();
    push_nat(&mut first, el.index as u64);
    push_str(&mut first, ".");
    parts.push(first);
    if !el.class_name.as_str().is_empty() {
        let mut p = chars_of(el.class_name.as_str());
        push_str(&mut p, ":");
        parts.push(p);
    }
    let mut details: Vec<Vec<char>> = Vec::new();
    if !el.resource_id.as_str().is_empty() {
        let mut p = chars_of("\"");
        push_str(&mut p, el.resource_id.as_str());
        push_str(&mut p, "\"");
        details.push(p);
    }
    if !el.text.as_str().is_empty() {
        let mut p = chars_of("\"");
        push_str(&mut p, el.text.as_str());
        push_str(&mut p, "\"");
        details.push(p);
    }
    assert(views(details@) =~= detail_parts(*el));
    if details.len() > 0 {
        let comma = chars_of(", ");
        parts.push(join_chars(&details, comma.as_slice()));
    }
    if !el.checked_state.as_str().is_empty() {
        let mut p = chars_of("; ");
        push_str(&mut p, el.checked_state.as_str());
        parts.push(p);
    }
    if !el.bounds.as_str().is_empty() {
        let mut p = chars_of("- (");
        push_str(&mut p, el.bounds.as_str());
        push_str(&mut p, ")");
        parts.push(p);
    }
    assert(views(parts@) =~= line_parts(*el));
    let space = chars_of(" ");
    join_chars(&parts, space.as_slice())
}

/// The heading, schema line and element list of the screen description.
pub open spec fn ui_text(elements: Seq<Element>, use_normalized: bool) -> Seq<char> {
    "Current Clickable UI elements"@ + (if use_normalized {
        " (normalized [0-1000])"@
    } else {
        seq![]
    }) + ":\n'index. className: resourceId; checkedState, text - bounds(x1,y1,x2,y2)':\n"@ + (
    if elements.len() == 0 {
        "No UI elements found"@
    } else {
        elements_text_from(elements, 0, 0)
    })
}

/// The element list under its heading.
pub fn format_ui_elements_text(elements: &[Element], use_normalized: bool) -> (r: String)
    requires
        preorder(elements@).len() <= usize::MAX,
    ensures
        r@ == ui_text(elements@, use_normalized),
{
    let mut out = chars_of("Current Clickable UI elements");
    if use_normalized {
        push_str(&mut out, " (normalized [0-1000])");
    }
    push_str(&mut out, ":\n'index. className: resourceId; checkedState, text - bounds(x1,y1,x2,y2)':\n");
    if elements.len() == 0 {
        push_str(&mut out, "No UI elements found");
    } else {
        let listed = format_elements(elements, 0);
        push_str(&mut out, listed.as_str());
    }
    string_of(out.as_slice())
}

// ---- the formatter ----

/// Formats a filtered tree into the screen description, the focused text,
/// the indexed elements and the phone state.
pub trait TreeFormatter {
    /// The inputs `format` is defined on.
    spec fn accepts(
        &self,
        filtered_tree: Option<JsonView>,
        screen_width: i32,
        screen_height: i32,
        use_normalized: bool,
    ) -> bool;

    /// What `format` answers: `(formatted_text, focused_text, elements,
    /// phone_state)`.
    spec fn formats(
        &self,
        filtered_tree: Option<JsonView>,
        phone_state: JsonView,
        screen_width: i32,
        screen_height: i32,
        use_normalized: bool,
        formatted_text: Seq<char>,
        focused_text: Seq<char>,
        elements: Seq<Element>,
        parsed: PhoneState,
    ) -> bool;

    /// Formats the filtered tree to the standard output.
    fn format(
        &self,
        filtered_tree: Option<&JsonValue>,
        phone_state: &JsonValue,
        screen_width: i32,
        screen_height: i32,
        use_normalized: bool,
    ) -> (r: (String, String, Vec<Element>, PhoneState))
        requires
            self.accepts(view_opt(filtered_tree), screen_width, screen_height, use_normalized),
        ensures
            self.formats(
                view_opt(filtered_tree),
                phone_state@,
                screen_width,
                screen_height,
                use_normalized,
                r.0@,
                r.1@,
                r.2@,
                r.3,
            ),
    ;

    /// Whether `format` is defined on these inputs.
    fn accepts_input(
        &self,
        filtered_tree: Option<&JsonValue>,
        screen_width: i32,
        screen_height: i32,
        use_normalized: bool,
    ) -> (b: bool)
        ensures
            b == self.accepts(view_opt(filtered_tree), screen_width, screen_height, use_normalized),
    ;
}

/// The standard indexed formatter.
pub struct IndexedFormatter;

/// The trees the indexed formatter handles: fewer nodes than `usize::MAX`
/// and, when normalizing, bounds that scale within `i32`.
pub open spec fn indexed_accepts(
    filtered_tree: Option<JsonView>,
    screen_width: i32,
    screen_height: i32,
    use_normalized: bool,
) -> bool {
    match filtered_tree {
        Some(t) => json_preorder(t).len() < usize::MAX && (use_normalized && screen_width > 0
            && screen_height > 0 ==> tree_scalable(t)),
        None => true,
    }
}

/// The indexed formatter's answer.
pub open spec fn indexed_formats(
    filtered_tree: Option<JsonView>,
    phone_state: JsonView,
    screen_width: i32,
    screen_height: i32,
    use_normalized: bool,
    formatted_text: Seq<char>,
    focused: Seq<char>,
    elements: Seq<Element>,
    parsed: PhoneState,
) -> bool {
    &&& focused == focused_text(phone_state)
    &&& phone_state_is(parsed, phone_fields(phone_state))
    &&& match filtered_tree {
        Some(t) => elements_of(
            elements,
            json_preorder(t),
            1,
            screen_width,
            screen_height,
            use_normalized,
        ),
        None => elements.len() == 0,
    }
    &&& formatted_text == phone_text(parsed) + "\n\n"@ + ui_text(elements, use_normalized)
}

impl TreeFormatter for IndexedFormatter {
    fn accepts_input(
        &self,
        filtered_tree: Option<&JsonValue>,
        screen_width: i32,
        screen_height: i32,
        use_normalized: bool,
    ) -> (b: bool) {
        indexed_accepts_check(filtered_tree, screen_width, screen_height, use_normalized)
    }

    open spec fn accepts(
        &self,
        filtered_tree: Option<JsonView>,
        screen_width: i32,
        screen_height: i32,
        use_normalized: bool,
    ) -> bool {
        indexed_accepts(filtered_tree, screen_width, screen_height, use_normalized)
    }

    open spec fn formats(
        &self,
        filtered_tree: Option<JsonView>,
        phone_state: JsonView,
        screen_width: i32,
        screen_height: i32,
        use_normalized: bool,
        formatted_text: Seq<char>,
        focused_text: Seq<char>,
        elements: Seq<Element>,
        parsed: PhoneState,
    ) -> bool {
        indexed_formats(
            filtered_tree,
            phone_state,
            screen_width,
            screen_height,
            use_normalized,
            formatted_text,
            focused_text,
            elements,
            parsed,
        )
    }

    fn format(
        &self,
        filtered_tree: Option<&JsonValue>,
        phone_state: &JsonValue,
        screen_width: i32,
        screen_height: i32,
        use_normalized: bool,
    ) -> (r: (String, String, Vec<Element>, PhoneState)) {
        let focused_text = get_focused_text(phone_state);
        let parsed_phone_state = parse_phone_state(phone_state);
        let elements = match filtered_tree {
            Some(tree) => {
                let mut counter: usize = 1;
                flatten_with_index(tree, &mut counter, screen_width, screen_height, use_normalized)
            },
            None => Vec::new(),
        };
        proof {
            assert forall|k: int| 0 <= k < elements@.len() implies (
            #[trigger] elements@[k]).children@.len() == 0 by {
                if filtered_tree is Some {
                    assert(element_of(
                        elements@[k],
                        json_preorder(filtered_tree->0@)[k],
                        1 + k,
                        screen_width,
                        screen_height,
                        use_normalized,
                    ));
                }
            }
            lemma_preorder_flat(elements@, 0);
        }
        let phone_state_text = format_phone_state(&parsed_phone_state);
        let ui_elements_text = format_ui_elements_text(elements.as_slice(), use_normalized);
        let mut out = chars_of(phone_state_text.as_str());
        push_str(&mut out, "\n\n");
        push_str(&mut out, ui_elements_text.as_str());
        (string_of(out.as_slice()), focused_text, elements, parsed_phone_state)
    }
}

// ---- the shape of the element listing ----

/// The elements of a forest from position `i` on, in pre-order, each paired
/// with the level of its line: `level` for the elements of `s`, one more for
/// each step down to a child.
pub open spec fn entries_from(s: Seq<Element>, i: int, level: nat) -> Seq<(Element, nat)>
    decreases s, s.len() - i,
{
    if i < 0 || i >= s.len() {
        seq![]
    } else {
        proof {
            lemma_children_smaller(s, i);
        }
        seq![(s[i], level)] + entries_from(s[i].children@, 0, level + 1) + entries_from(
            s,
            i + 1,
            level,
        )
    }
}

/// The line of each entry, at the entry's level.
pub open spec fn entry_lines(q: Seq<(Element, nat)>) -> Seq<Seq<char>> {
    q.map_values(|p: (Element, nat)| element_line(p.0, p.1))
}

/// No newline in a text.
pub open spec fn one_line(t: Seq<char>) -> bool {
    forall|j: int| 0 <= j < t.len() ==> #[trigger] t[j] != '\n'
}

/// No newline in any text field of an element.
pub open spec fn fields_one_line(e: Element) -> bool {
    &&& one_line(e.class_name@)
    &&& one_line(e.resource_id@)
    &&& one_line(e.text@)
    &&& one_line(e.checked_state@)
    &&& one_line(e.bounds@)
}

proof fn lemma_entries(s: Seq<Element>, i: int, level: nat)
    requires
        0 <= i,
    ensures
        entries_from(s, i, level).len() == preorder_from(s, i).len(),
        forall|k: int|
            0 <= k < entries_from(s, i, level).len() ==> (#[trigger] entries_from(s, i, level)[k]).0
                == preorder_from(s, i)[k] && entries_from(s, i, level)[k].1 >= level,
        elements_text_from(s, i, level) == join(entry_lines(entries_from(s, i, level)), "\n"@),
    decreases s, s.len() - i,
{
    if i < s.len() {
        lemma_children_smaller(s, i);
        let c = s[i].children@;
        lemma_entries(c, 0, level + 1);
        lemma_entries(s, i + 1, level);
        let e = entries_from(s, i, level);
        let ec = entries_from(c, 0, level + 1);
        let er = entries_from(s, i + 1, level);
        let head: Seq<(Element, nat)> = seq![(s[i], level)];
        assert(e == head + ec + er);
        let p = preorder_from(s, i);
        assert(p == seq![s[i]] + preorder_from(c, 0) + preorder_from(s, i + 1));
        assert forall|k: int| 0 <= k < e.len() implies (#[trigger] e[k]).0 == p[k] && e[k].1
            >= level by {
            if k == 0 {
            } else if k < 1 + ec.len() {
                assert(e[k] == ec[k - 1]);
                assert(p[k] == preorder_from(c, 0)[k - 1]);
            } else {
                assert(e[k] == er[k - 1 - ec.len()]);
                assert(p[k] == preorder_from(s, i + 1)[k - 1 - ec.len()]);
            }
        }
        let line = element_line(s[i], level);
        let lc = entry_lines(ec);
        let lr = entry_lines(er);
        let hl: Seq<Seq<char>> = seq![line];
        assert(entry_lines(e) =~= hl + lc + lr);
        lemma_text_step(s, i, level);
        assert(join(hl, "\n"@) == line);
        assert(preorder_from(c, 0).len() == 0 <==> c.len() == 0) by {
            if c.len() > 0 {
                assert(preorder_from(c, 0) == seq![c[0]] + preorder_from(c[0].children@, 0)
                    + preorder_from(c, 1));
            }
        }
        assert(preorder_from(s, i + 1).len() == 0 <==> i + 1 >= s.len()) by {
            if i + 1 < s.len() {
                assert(preorder_from(s, i + 1) == seq![s[i + 1]] + preorder_from(
                    s[i + 1].children@,
                    0,
                ) + preorder_from(s, i + 2));
            }
        }
        if lc.len() > 0 {
            lemma_join_concat(hl, lc, "\n"@);
        }
        if lr.len() > 0 {
            if lc.len() > 0 {
                lemma_join_concat(hl + lc, lr, "\n"@);
            } else {
                assert(hl + lc =~= hl);
                lemma_join_concat(hl, lr, "\n"@);
            }
        }
        if lc.len() == 0 {
            assert(hl + lc =~= hl);
        }
        if lr.len() == 0 {
            assert(hl + lc + lr =~= hl + lc);
        }
    } else {
        assert(entry_lines(entries_from(s, i, level)) =~= Seq::<Seq<char>>::empty());
    }
}

proof fn lemma_concat_one_line(a: Seq<char>, b: Seq<char>)
    requires
        one_line(a),
        one_line(b),
    ensures
        one_line(a + b),
{
    assert forall|j: int| 0 <= j < (a + b).len() implies #[trigger] (a + b)[j] != '\n' by {
        if j < a.len() {
            assert((a + b)[j] == a[j]);
        } else {
            assert((a + b)[j] == b[j - a.len()]);
        }
    }
}

proof fn lemma_indent_one_line(level: nat)
    ensures
        one_line(indent(level)),
    decreases level,
{
    if level > 0 {
        lemma_indent_one_line((level - 1) as nat);
        reveal_strlit("  ");
        lemma_concat_one_line(indent((level - 1) as nat), "  "@);
    }
}

proof fn lemma_join_one_line(list: Seq<Seq<char>>, sep: Seq<char>)
    requires
        forall|k: int| 0 <= k < list.len() ==> one_line(#[trigger] list[k]),
        one_line(sep),
    ensures
        one_line(join(list, sep)),
{
    assert forall|k: int, j: int| 0 <= k < list.len() && 0 <= j < list[k].len() implies #[trigger] list[k][j]
        != '\n' by {
        assert(one_line(list[k]));
    }
    lemma_join_free_of(list, sep, '\n');
}

/// An element's line holds no newline when its fields hold none, and it is
/// never empty.
proof fn lemma_line_one_line(e: Element, level: nat)
    requires
        fields_one_line(e),
    ensures
        one_line(element_line(e, level)),
        element_line(e, level).len() > 0,
{
    reveal_strlit(".");
    reveal_strlit(":");
    reveal_strlit("\"");
    reveal_strlit(", ");
    reveal_strlit("; ");
    reveal_strlit("- (");
    reveal_strlit(")");
    reveal_strlit(" ");
    lemma_nat_to_dec_value(e.index as nat);
    let d = nat_to_dec(e.index as nat);
    assert(one_line(d)) by {
        assert forall|j: int| 0 <= j < d.len() implies #[trigger] d[j] != '\n' by {
            assert(is_digit(d[j]));
        }
    }
    lemma_concat_one_line(d, "."@);
    lemma_concat_one_line(e.class_name@, ":"@);
    lemma_concat_one_line("\""@, e.resource_id@);
    lemma_concat_one_line("\""@ + e.resource_id@, "\""@);
    lemma_concat_one_line("\""@, e.text@);
    lemma_concat_one_line("\""@ + e.text@, "\""@);
    let dp = detail_parts(e);
    assert forall|k: int| 0 <= k < dp.len() implies one_line(#[trigger] dp[k]) by {
        if e.resource_id@.len() > 0 && k == 0 {
            assert(dp[k] == quoted(e.resource_id@));
        } else {
            assert(dp[k] == quoted(e.text@));
        }
    }
    lemma_join_one_line(dp, ", "@);
    lemma_concat_one_line("; "@, e.checked_state@);
    lemma_concat_one_line("- ("@, e.bounds@);
    lemma_concat_one_line("- ("@ + e.bounds@, ")"@);
    let lp = line_parts(e);
    assert forall|k: int| 0 <= k < lp.len() implies one_line(#[trigger] lp[k]) by {
        let a: Seq<Seq<char>> = seq![d + "."@];
        let b: Seq<Seq<char>> = if e.class_name@.len() > 0 {
            seq![e.class_name@ + ":"@]
        } else {
            seq![]
        };
        let c: Seq<Seq<char>> = if dp.len() > 0 {
            seq![join(dp, ", "@)]
        } else {
            seq![]
        };
        let f: Seq<Seq<char>> = if e.checked_state@.len() > 0 {
            seq!["; "@ + e.checked_state@]
        } else {
            seq![]
        };
        let g: Seq<Seq<char>> = if e.bounds@.len() > 0 {
            seq!["- ("@ + e.bounds@ + ")"@]
        } else {
            seq![]
        };
        assert(lp == a + b + c + f + g);
    }
    lemma_join_one_line(lp, " "@);
    lemma_indent_one_line(level);
    lemma_concat_one_line(indent(level), join(lp, " "@));
    lemma_join_first(lp, " "@);
}

/// What `format_elements(elements, level)` writes is one line per element of
/// the forest, in pre-order (each parent before its children, siblings in
/// order), joined by newlines: the line of an element at depth `k` below the
/// given elements is `element_line(e, level + k)`, which starts with two
/// spaces per level and `index.`, and, where the bounds are not empty, ends
/// with `- (bounds)`. When no text field holds a newline, `str::lines` reads
/// back exactly one line per element.
pub proof fn lemma_format_elements_lines(s: Seq<Element>, level: nat)
    ensures
        elements_text_from(s, 0, level) == join(entry_lines(entries_from(s, 0, level)), "\n"@),
        entries_from(s, 0, level).len() == preorder(s).len(),
        forall|k: int|
            0 <= k < entries_from(s, 0, level).len() ==> (#[trigger] entries_from(s, 0, level)[k]).0
                == preorder(s)[k] && entries_from(s, 0, level)[k].1 >= level,
        (forall|k: int| 0 <= k < preorder(s).len() ==> fields_one_line(#[trigger] preorder(s)[k]))
            ==> lines(elements_text_from(s, 0, level)).len() == preorder(s).len(),
{
    lemma_entries(s, 0, level);
    let q = entries_from(s, 0, level);
    let ls = entry_lines(q);
    let t = elements_text_from(s, 0, level);
    if forall|k: int| 0 <= k < preorder(s).len() ==> fields_one_line(#[trigger] preorder(s)[k]) {
        reveal_strlit("\n");
        assert("\n"@ =~= seq!['\n']);
        assert forall|k: int| 0 <= k < ls.len() implies one_line(#[trigger] ls[k]) && ls[k].len()
            > 0 by {
            assert(q[k].0 == preorder(s)[k]);
            assert(fields_one_line(preorder(s)[k]));
            lemma_line_one_line(q[k].0, q[k].1);
        }
        if ls.len() > 0 {
            assert forall|k: int, j: int| 0 <= k < ls.len() && 0 <= j < ls[k].len() implies #[trigger] ls[k][j]
                != '\n' by {
                assert(one_line(ls[k]));
            }
            lemma_split_join(ls, '\n');
            lemma_join_last_char(ls, "\n"@);
            assert(t.len() > 0 && t.last() != '\n') by {
                assert(one_line(ls.last()));
            }
        } else {
            assert(t == Seq::<char>::empty());
            assert(split_on(t, '\n') == seq![Seq::<char>::empty()]);
        }
    }
}

/// A joined list whose last part is not empty ends with that part's last
/// character.
proof fn lemma_join_last_char(list: Seq<Seq<char>>, sep: Seq<char>)
    requires
        list.len() > 0,
        list.last().len() > 0,
    ensures
        join(list, sep).len() > 0,
        join(list, sep).last() == list.last().last(),
{
}

/// The line of an element starts with its indentation and `index.`, and,
/// where its bounds are not empty, ends with ` - (bounds)`.
pub proof fn lemma_element_line_shape(e: Element, level: nat)
    ensures
        element_line(e, level).len() >= indent(level).len() + nat_to_dec(e.index as nat).len() + 1,
        element_line(e, level).take(
            (indent(level).len() + nat_to_dec(e.index as nat).len() + 1) as int,
        ) == indent(level) + nat_to_dec(e.index as nat) + "."@,
        e.bounds@.len() > 0 ==> element_line(e, level) == indent(level) + join(
            line_parts(e).drop_last(),
            " "@,
        ) + " - ("@ + e.bounds@ + ")"@,
{
    reveal_strlit(".");
    reveal_strlit(" ");
    reveal_strlit("- (");
    reveal_strlit(" - (");
    let lp = line_parts(e);
    let first = nat_to_dec(e.index as nat) + "."@;
    assert(lp[0] == first);
    lemma_join_first(lp, " "@);
    let j = join(lp, " "@);
    assert(element_line(e, level) == indent(level) + j);
    assert((indent(level) + j).take((indent(level).len() + first.len()) as int) =~= indent(level)
        + j.take(first.len() as int));
    if e.bounds@.len() > 0 {
        assert(lp.len() > 1);
        assert(lp.last() == "- ("@ + e.bounds@ + ")"@);
        assert(j == join(lp.drop_last(), " "@) + " "@ + lp.last());
        assert(indent(level) + j =~= indent(level) + join(lp.drop_last(), " "@) + " - ("@
            + e.bounds@ + ")"@);
    }
}

} // verus!
