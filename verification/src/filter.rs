//! Accessibility tree filtering: drops nodes that lie off screen or are too
//! small, keeping the hierarchy of the nodes that remain.
use vstd::prelude::*;

use crate::formatter::{json_preorder, json_preorder_from};
use crate::json::{
    children_of, int_or, jget, lemma_array_view, lemma_child_smaller, lemma_object_view,
    lookup_from, member_views, view_opt, view_opt_owned, item_views, JsonValue, JsonView,
};

verus! {

/// A filter over accessibility trees, keeping the hierarchy of what it keeps.
pub trait TreeFilter {
    /// What `filter` answers for a tree and a device context.
    spec fn filter_result(&self, a11y_tree: JsonView, device_context: JsonView) -> Option<
        JsonView,
    >;

    /// Filters the tree; `None` when the root itself is dropped.
    fn filter(&self, a11y_tree: &JsonValue, device_context: &JsonValue) -> (r: Option<JsonValue>)
        ensures
            view_opt_owned(r) == self.filter_result(a11y_tree@, device_context@),
    ;

    /// Filter name for identification.
    fn name(&self) -> &str;
}

/// Concise tree filtering: removes off-screen and tiny elements.
pub struct ConciseFilter;

/// `get(key).and_then(as_i64).unwrap_or(default) as i32`.
pub open spec fn side(b: JsonView, key: Seq<char>, default: i64) -> i32 {
    int_or(b, key, default) as i32
}

/// A node without `boundsInScreen` is kept; otherwise its rectangle must
/// reach into the screen.
pub open spec fn on_screen(node: JsonView, width: i32, height: i32) -> bool {
    match jget(node, "boundsInScreen"@) {
        None => true,
        Some(b) => !(side(b, "right"@, 0) <= 0 || side(b, "bottom"@, 0) <= 0 || side(b, "left"@, 0)
            >= width || side(b, "top"@, 0) >= height),
    }
}

/// A node without `boundsInScreen` is kept; otherwise both its width and its
/// height must exceed `min_size`.
pub open spec fn big_enough(node: JsonView, min_size: i32) -> bool {
    match jget(node, "boundsInScreen"@) {
        None => true,
        Some(b) => side(b, "right"@, 0) - side(b, "left"@, 0) > min_size && side(b, "bottom"@, 0)
            - side(b, "top"@, 0) > min_size,
    }
}

/// The position of the first member named `key`.
pub open spec fn member_pos(m: Seq<(Seq<char>, JsonView)>, key: Seq<char>, i: int) -> Option<int>
    decreases m.len() - i,
{
    if i < 0 || i >= m.len() {
        None
    } else if m[i].0 == key {
        Some(i)
    } else {
        member_pos(m, key, i + 1)
    }
}

/// `insert(key, value)` on an object: replaces the member `key`, or adds it
/// at the end; other values are unchanged.
pub open spec fn with_member(v: JsonView, key: Seq<char>, value: JsonView) -> JsonView {
    match v {
        JsonView::Object(m) => match member_pos(m, key, 0) {
            Some(k) => JsonView::Object(m.update(k, (key, value))),
            None => JsonView::Object(m.push((key, value))),
        },
        _ => v,
    }
}

/// The screen width, height and minimum element size a filter works with.
pub open spec fn filter_params(screen_bounds: JsonView, filtering_params: JsonView) -> (
    i32,
    i32,
    i32,
) {
    (
        side(screen_bounds, "width"@, 1080),
        side(screen_bounds, "height"@, 2400),
        side(filtering_params, "min_element_size"@, 5),
    )
}

/// The filtered node: `None` when the node is off screen or too small;
/// otherwise the node with its `children` replaced by the kept children.
pub open spec fn filtered(node: JsonView, width: i32, height: i32, min_size: i32) -> Option<
    JsonView,
>
    decreases node, children_of(node).len() + 1,
{
    if !on_screen(node, width, height) || !big_enough(node, min_size) {
        None
    } else {
        Some(
            with_member(
                node,
                "children"@,
                JsonView::Array(kept_from(node, 0, width, height, min_size)),
            ),
        )
    }
}

/// The kept children of `parent`, from position `i` on.
pub open spec fn kept_from(parent: JsonView, i: int, width: i32, height: i32, min_size: i32) -> Seq<
    JsonView,
>
    decreases parent, children_of(parent).len() - i,
{
    if i < 0 || i >= children_of(parent).len() {
        seq![]
    } else {
        proof {
            lemma_child_smaller(parent, i);
        }
        let rest = kept_from(parent, i + 1, width, height, min_size);
        match filtered(children_of(parent)[i], width, height, min_size) {
            Some(c) => seq![c] + rest,
            None => rest,
        }
    }
}

/// What the concise filter answers for a tree and a device context.
pub open spec fn concise_result(a11y_tree: JsonView, device_context: JsonView) -> Option<JsonView> {
    let sb = match jget(device_context, "screen_bounds"@) {
        Some(v) => v,
        None => JsonView::Null,
    };
    let fp = match jget(device_context, "filtering_params"@) {
        Some(v) => v,
        None => JsonView::Null,
    };
    let (w, h, m) = filter_params(sb, fp);
    filtered(a11y_tree, w, h, m)
}

impl TreeFilter for ConciseFilter {
    open spec fn filter_result(&self, a11y_tree: JsonView, device_context: JsonView) -> Option<
        JsonView,
    > {
        concise_result(a11y_tree, device_context)
    }

    fn filter(&self, a11y_tree: &JsonValue, device_context: &JsonValue) -> (r: Option<JsonValue>) {
        let screen_bounds = match device_context.get("screen_bounds") {
            Some(v) => v.duplicate(),
            None => JsonValue::Null,
        };
        let filtering_params = match device_context.get("filtering_params") {
            Some(v) => v.duplicate(),
            None => JsonValue::Null,
        };
        filter_node(a11y_tree, &screen_bounds, &filtering_params)
    }

    fn name(&self) -> (r: &str)
        ensures
            r@ == "concise"@,
    {
        "concise"
    }
}

/// `get(key).and_then(as_i64).unwrap_or(default)`.
pub fn int_field(v: &JsonValue, key: &str, default: i64) -> (r: i64)
    ensures
        r == int_or(v@, key@, default),
{
    match v.get(key) {
        Some(x) => match x.as_i64() {
            Some(i) => i,
            None => default,
        },
        None => default,
    }
}

/// Sets the member `key` of an object (replacing the first one so named, or
/// adding it at the end); other values are left as they are.
pub fn set_member(v: &mut JsonValue, key: &str, value: JsonValue)
    ensures
        final(v)@ == with_member(old(v)@, key@, value@),
{
    match v {
        JsonValue::Object(m) => {
            proof {
                lemma_object_view(*m);
            }
            let ghost sm = member_views(m@);
            let k = key.to_owned();
            let mut i: usize = 0;
            let mut found = false;
            while i < m.len() && !found
                invariant
                    sm == member_views(m@),
                    k@ == key@,
                    i <= m.len(),
                    found ==> i < m.len() && member_pos(sm, key@, 0) == Some(i as int),
                    !found ==> member_pos(sm, key@, 0) == member_pos(sm, key@, i as int),
                decreases m.len() - i + (if found {
                    0int
                } else {
                    1int
                }),
            {
                if m[i].0 == k {
                    assert(sm[i as int].0 == key@);
                    found = true;
                } else {
                    i = i + 1;
                }
            }
            if found {
                m.set(i, (k, value));
                proof {
                    lemma_object_view(*m);
                    assert(member_views(m@) =~= sm.update(i as int, (key@, value@)));
                }
            } else {
                m.push((k, value));
                proof {
                    lemma_object_view(*m);
                    assert(member_views(m@) =~= sm.push((key@, value@)));
                }
            }
        },
        _ => {},
    }
}

fn intersects_screen(node: &JsonValue, screen_width: i32, screen_height: i32) -> (r: bool)
    ensures
        r == on_screen(node@, screen_width, screen_height),
{
    let bounds = match node.get("boundsInScreen") {
        Some(b) => b,
        None => {
            return true;
        },
    };
    let left = int_field(bounds, "left", 0) as i32;
    let top = int_field(bounds, "top", 0) as i32;
    let right = int_field(bounds, "right", 0) as i32;
    let bottom = int_field(bounds, "bottom", 0) as i32;
    !(right <= 0 || bottom <= 0 || left >= screen_width || top >= screen_height)
}

fn meets_min_size(node: &JsonValue, min_size: i32) -> (r: bool)
    ensures
        r == big_enough(node@, min_size),
{
    let bounds = match node.get("boundsInScreen") {
        Some(b) => b,
        None => {
            return true;
        },
    };
    let left = int_field(bounds, "left", 0) as i32;
    let top = int_field(bounds, "top", 0) as i32;
    let right = int_field(bounds, "right", 0) as i32;
    let bottom = int_field(bounds, "bottom", 0) as i32;
    let w = right as i64 - left as i64;
    let h = bottom as i64 - top as i64;
    w > min_size as i64 && h > min_size as i64
}

/// Filters one node and, recursively, its children.
fn filter_node(node: &JsonValue, screen_bounds: &JsonValue, filtering_params: &JsonValue) -> (r:
    Option<JsonValue>)
    ensures
        view_opt_owned(r) == ({
            let (w, h, m) = filter_params(screen_bounds@, filtering_params@);
            filtered(node@, w, h, m)
        }),
    decreases node@,
{
    let ghost params = filter_params(screen_bounds@, filtering_params@);
    let min_size = int_field(filtering_params, "min_element_size", 5) as i32;
    let screen_width = int_field(screen_bounds, "width", 1080) as i32;
    let screen_height = int_field(screen_bounds, "height", 2400) as i32;
    assert(params == (screen_width, screen_height, min_size));
    if !intersects_screen(node, screen_width, screen_height) {
        return None;
    }
    if !meets_min_size(node, min_size) {
        return None;
    }
    let ghost kids = children_of(node@);
    let mut filtered_children: Vec<JsonValue> = Vec::new();
    match node.get("children") {
        Some(c) => match c.as_array() {
            Some(children) => {
                let mut i: usize = 0;
                while i < children.len()
                    invariant
                        kids == children_of(node@),
                        item_views(children@) == kids,
                        i <= children.len(),
                        params == (screen_width, screen_height, min_size),
                        params == filter_params(screen_bounds@, filtering_params@),
                        item_views(filtered_children@) + kept_from(
                            node@,
                            i as int,
                            screen_width,
                            screen_height,
                            min_size,
                        ) == kept_from(node@, 0, screen_width, screen_height, min_size),
                    decreases children.len() - i,
                {
                    proof {
                        lemma_child_smaller(node@, i as int);
                        assert(children@[i as int]@ == kids[i as int]);
                    }
                    let ghost before = item_views(filtered_children@);
                    let ghost rest = kept_from(
                        node@,
                        i + 1,
                        screen_width,
                        screen_height,
                        min_size,
                    );
                    match filter_node(&children[i], screen_bounds, filtering_params) {
                        Some(f) => {
                            filtered_children.push(f);
                            assert(item_views(filtered_children@) =~= before + seq![f@]);
                            assert(before + seq![f@] + rest =~= before + (seq![f@] + rest));
                        },
                        None => {},
                    }
                    i = i + 1;
                }
            },
            None => {},
        },
        None => {},
    }
    assert(item_views(filtered_children@) =~= kept_from(
        node@,
        0,
        screen_width,
        screen_height,
        min_size,
    ));
    let mut result = node.duplicate();
    proof {
        lemma_array_view(filtered_children);
    }
    set_member(&mut result, "children", JsonValue::Array(filtered_children));
    Some(result)
}

// ---- what the filter keeps ----

/// A node the filter keeps on its own account: on screen and large enough.
pub open spec fn visible(v: JsonView, width: i32, height: i32, min_size: i32) -> bool {
    on_screen(v, width, height) && big_enough(v, min_size)
}

/// Every node of `q` is visible.
pub open spec fn all_visible(q: Seq<JsonView>, width: i32, height: i32, min_size: i32) -> bool {
    forall|k: int| 0 <= k < q.len() ==> visible(#[trigger] q[k], width, height, min_size)
}

proof fn lemma_lookup_other_update(
    m: Seq<(Seq<char>, JsonView)>,
    p: int,
    key: Seq<char>,
    val: JsonView,
    other: Seq<char>,
    i: int,
)
    requires
        0 <= p < m.len(),
        m[p].0 == key,
        other != key,
        0 <= i,
    ensures
        lookup_from(m.update(p, (key, val)), other, i) == lookup_from(m, other, i),
    decreases m.len() - i,
{
    if i < m.len() {
        lemma_lookup_other_update(m, p, key, val, other, i + 1);
    }
}

proof fn lemma_lookup_other_push(
    m: Seq<(Seq<char>, JsonView)>,
    key: Seq<char>,
    val: JsonView,
    other: Seq<char>,
    i: int,
)
    requires
        other != key,
        0 <= i,
    ensures
        lookup_from(m.push((key, val)), other, i) == lookup_from(m, other, i),
    decreases m.len() + 1 - i,
{
    if i <= m.len() {
        lemma_lookup_other_push(m, key, val, other, i + 1);
    }
}

proof fn lemma_lookup_key_update(
    m: Seq<(Seq<char>, JsonView)>,
    key: Seq<char>,
    val: JsonView,
    p: int,
    i: int,
)
    requires
        member_pos(m, key, i) == Some(p),
        0 <= i,
    ensures
        lookup_from(m.update(p, (key, val)), key, i) == Some(val),
        0 <= p < m.len(),
    decreases m.len() - i,
{
    if i < m.len() && m[i].0 != key {
        lemma_lookup_key_update(m, key, val, p, i + 1);
    }
}

proof fn lemma_lookup_key_push(m: Seq<(Seq<char>, JsonView)>, key: Seq<char>, val: JsonView, i: int)
    requires
        member_pos(m, key, i) is None,
        0 <= i <= m.len(),
    ensures
        lookup_from(m.push((key, val)), key, i) == Some(val),
    decreases m.len() + 1 - i,
{
    if i < m.len() {
        lemma_lookup_key_push(m, key, val, i + 1);
    }
}

proof fn lemma_member_pos_found(m: Seq<(Seq<char>, JsonView)>, key: Seq<char>, i: int)
    requires
        member_pos(m, key, i) matches Some(p),
    ensures
        member_pos(m, key, i) matches Some(p) && 0 <= p < m.len() && m[p].0 == key,
    decreases m.len() - i,
{
    if 0 <= i < m.len() && m[i].0 != key {
        lemma_member_pos_found(m, key, i + 1);
    }
}

/// After `insert(key, value)` on an object, `key` holds `value` and the other
/// members are unchanged.
pub proof fn lemma_with_member(v: JsonView, key: Seq<char>, value: JsonView, other: Seq<char>)
    requires
        v is Object,
    ensures
        jget(with_member(v, key, value), key) == Some(value),
        other != key ==> jget(with_member(v, key, value), other) == jget(v, other),
{
    let m = v->Object_0;
    match member_pos(m, key, 0) {
        Some(p) => {
            lemma_member_pos_found(m, key, 0);
            lemma_lookup_key_update(m, key, value, p, 0);
            if other != key {
                lemma_lookup_other_update(m, p, key, value, other, 0);
            }
        },
        None => {
            lemma_lookup_key_push(m, key, value, 0);
            if other != key {
                lemma_lookup_other_push(m, key, value, other, 0);
            }
        },
    }
}

proof fn lemma_preorder_from_visible(p: JsonView, i: int, width: i32, height: i32, min_size: i32)
    requires
        0 <= i,
        forall|j: int|
            i <= j < children_of(p).len() ==> all_visible(
                json_preorder(#[trigger] children_of(p)[j]),
                width,
                height,
                min_size,
            ),
    ensures
        all_visible(json_preorder_from(p, i), width, height, min_size),
    decreases children_of(p).len() - i,
{
    if i < children_of(p).len() {
        lemma_preorder_from_visible(p, i + 1, width, height, min_size);
        let a = json_preorder(children_of(p)[i]);
        let b = json_preorder_from(p, i + 1);
        assert(json_preorder_from(p, i) == a + b);
        assert(all_visible(a, width, height, min_size));
        assert forall|k: int| 0 <= k < (a + b).len() implies visible(
            #[trigger] (a + b)[k],
            width,
            height,
            min_size,
        ) by {
            if k < a.len() {
                assert((a + b)[k] == a[k]);
            } else {
                assert((a + b)[k] == b[k - a.len()]);
            }
        }
    }
}

proof fn lemma_kept_visible(node: JsonView, i: int, width: i32, height: i32, min_size: i32)
    requires
        0 <= i,
    ensures
        forall|t: int|
            0 <= t < kept_from(node, i, width, height, min_size).len() ==> all_visible(
                json_preorder(#[trigger] kept_from(node, i, width, height, min_size)[t]),
                width,
                height,
                min_size,
            ),
    decreases node, children_of(node).len() - i,
{
    if i < children_of(node).len() {
        lemma_child_smaller(node, i);
        lemma_filtered_visible(children_of(node)[i], width, height, min_size);
        lemma_kept_visible(node, i + 1, width, height, min_size);
        let rest = kept_from(node, i + 1, width, height, min_size);
        match filtered(children_of(node)[i], width, height, min_size) {
            Some(c) => {
                assert(kept_from(node, i, width, height, min_size) == seq![c] + rest);
                assert forall|t: int|
                    0 <= t < (seq![c] + rest).len() implies all_visible(
                    json_preorder(#[trigger] (seq![c] + rest)[t]),
                    width,
                    height,
                    min_size,
                ) by {
                    if t > 0 {
                        assert((seq![c] + rest)[t] == rest[t - 1]);
                    }
                }
            },
            None => {},
        }
    }
}

/// Every node of a filtered tree reaches into the screen and is larger than
/// the minimum size: the filter removes off-screen and tiny nodes.
pub proof fn lemma_filtered_visible(node: JsonView, width: i32, height: i32, min_size: i32)
    ensures
        filtered(node, width, height, min_size) matches Some(r) ==> all_visible(
            json_preorder(r),
            width,
            height,
            min_size,
        ),
    decreases node, children_of(node).len() + 1,
{
    if visible(node, width, height, min_size) {
        let kept = kept_from(node, 0, width, height, min_size);
        let r = with_member(node, "children"@, JsonView::Array(kept));
        lemma_kept_visible(node, 0, width, height, min_size);
        if node is Object {
            reveal_strlit("children");
            reveal_strlit("boundsInScreen");
            assert("boundsInScreen"@ != "children"@) by {
                assert("boundsInScreen"@.len() != "children"@.len());
            }
            lemma_with_member(node, "children"@, JsonView::Array(kept), "boundsInScreen"@);
            assert(children_of(r) == kept);
        } else {
            assert(r == node);
            assert(children_of(node).len() == 0);
            assert(kept =~= Seq::<JsonView>::empty());
            assert(children_of(r) =~= kept);
        }
        assert(visible(r, width, height, min_size));
        lemma_preorder_from_visible(r, 0, width, height, min_size);
        let q = json_preorder(r);
        assert(q == seq![r] + json_preorder_from(r, 0));
        assert forall|k: int| 0 <= k < q.len() implies visible(#[trigger] q[k], width, height, min_size) by {
            if k > 0 {
                assert(q[k] == json_preorder_from(r, 0)[k - 1]);
            }
        }
    }
}

// ---- what the concise filter keeps ----

/// A member of the device context, or `null` when it is missing.
pub open spec fn context_member(device_context: JsonView, key: Seq<char>) -> JsonView {
    match jget(device_context, key) {
        Some(v) => v,
        None => JsonView::Null,
    }
}

/// The screen width the device context names (`screen_bounds.width`, 1080
/// when missing).
pub open spec fn context_width(device_context: JsonView) -> i32 {
    side(context_member(device_context, "screen_bounds"@), "width"@, 1080)
}

/// The screen height the device context names (`screen_bounds.height`, 2400
/// when missing).
pub open spec fn context_height(device_context: JsonView) -> i32 {
    side(context_member(device_context, "screen_bounds"@), "height"@, 2400)
}

/// The minimum element size the device context names
/// (`filtering_params.min_element_size`, 5 when missing).
pub open spec fn context_min_size(device_context: JsonView) -> i32 {
    side(context_member(device_context, "filtering_params"@), "min_element_size"@, 5)
}

/// A node shows on a `width` by `height` screen: it has no `boundsInScreen`,
/// or its rectangle (missing sides read as 0) has `right > 0`, `bottom > 0`,
/// `left < width`, `top < height`, and is wider and taller than `min_size`.
pub open spec fn shows(node: JsonView, width: i32, height: i32, min_size: i32) -> bool {
    match jget(node, "boundsInScreen"@) {
        None => true,
        Some(b) => {
            let l = side(b, "left"@, 0);
            let t = side(b, "top"@, 0);
            let r = side(b, "right"@, 0);
            let d = side(b, "bottom"@, 0);
            &&& r > 0
            &&& d > 0
            &&& l < width
            &&& t < height
            &&& r - l > min_size
            &&& d - t > min_size
        },
    }
}

/// The nodes of `cs` from position `i` on that show, in order.
pub open spec fn showing_from(cs: Seq<JsonView>, i: int, width: i32, height: i32, min_size: i32) -> Seq<
    JsonView,
>
    decreases cs.len() - i,
{
    if i < 0 || i >= cs.len() {
        seq![]
    } else {
        let rest = showing_from(cs, i + 1, width, height, min_size);
        if shows(cs[i], width, height, min_size) {
            seq![cs[i]] + rest
        } else {
            rest
        }
    }
}

/// A kept node keeps all its members but `children`.
proof fn lemma_filtered_members(node: JsonView, width: i32, height: i32, min_size: i32, key: Seq<char>)
    requires
        key != "children"@,
    ensures
        filtered(node, width, height, min_size) is Some <==> shows(node, width, height, min_size),
        filtered(node, width, height, min_size) matches Some(t) ==> jget(t, key) == jget(node, key),
{
    if filtered(node, width, height, min_size) is Some {
        let kept = kept_from(node, 0, width, height, min_size);
        if node is Object {
            lemma_with_member(node, "children"@, JsonView::Array(kept), key);
        }
    }
}

/// The kept children of `parent` from position `i` on are its children that
/// show, each with all its members but `children`, in order.
proof fn lemma_kept_showing(parent: JsonView, i: int, width: i32, height: i32, min_size: i32)
    requires
        0 <= i,
    ensures
        kept_from(parent, i, width, height, min_size).len() == showing_from(
            children_of(parent),
            i,
            width,
            height,
            min_size,
        ).len(),
        forall|k: int, key: Seq<char>|
            0 <= k < kept_from(parent, i, width, height, min_size).len() && key != "children"@
                ==> #[trigger] jget(kept_from(parent, i, width, height, min_size)[k], key) == jget(
                showing_from(children_of(parent), i, width, height, min_size)[k],
                key,
            ),
    decreases children_of(parent).len() - i,
{
    let cs = children_of(parent);
    if i < cs.len() {
        lemma_kept_showing(parent, i + 1, width, height, min_size);
        let kr = kept_from(parent, i + 1, width, height, min_size);
        let sr = showing_from(cs, i + 1, width, height, min_size);
        reveal_strlit("children");
        reveal_strlit("boundsInScreen");
        assert("boundsInScreen"@ != "children"@) by {
            assert("boundsInScreen"@.len() != "children"@.len());
        }
        lemma_filtered_members(cs[i], width, height, min_size, "boundsInScreen"@);
        match filtered(cs[i], width, height, min_size) {
            Some(c) => {
                assert(kept_from(parent, i, width, height, min_size) == seq![c] + kr);
                assert(showing_from(cs, i, width, height, min_size) == seq![cs[i]] + sr);
                assert forall|k: int, key: Seq<char>|
                    0 <= k < (seq![c] + kr).len() && key != "children"@ implies #[trigger] jget(
                    (seq![c] + kr)[k],
                    key,
                ) == jget((seq![cs[i]] + sr)[k], key) by {
                    if k == 0 {
                        lemma_filtered_members(cs[i], width, height, min_size, key);
                    } else {
                        assert((seq![c] + kr)[k] == kr[k - 1]);
                        assert((seq![cs[i]] + sr)[k] == sr[k - 1]);
                    }
                }
            },
            None => {
                assert(kept_from(parent, i, width, height, min_size) == kr);
                assert(showing_from(cs, i, width, height, min_size) == sr);
            },
        }
    }
}

/// The concise filter keeps a node exactly when it shows on the screen that
/// the device context names (its `screen_bounds` `width` and `height`, and
/// `filtering_params.min_element_size`): the result is `None` when the root
/// does not show; otherwise the kept root has all the root's members but
/// `children`, and its children are, in order, the root's children that show,
/// each with all its members but `children`.
pub proof fn lemma_concise_keeps_what_shows(a11y_tree: JsonView, device_context: JsonView)
    ensures
        ({
            let w = context_width(device_context);
            let h = context_height(device_context);
            let m = context_min_size(device_context);
            let shown = showing_from(children_of(a11y_tree), 0, w, h, m);
            &&& concise_result(a11y_tree, device_context) is Some <==> shows(a11y_tree, w, h, m)
            &&& concise_result(a11y_tree, device_context) matches Some(t) ==> {
                &&& forall|key: Seq<char>| key != "children"@ ==> #[trigger] jget(t, key) == jget(
                    a11y_tree,
                    key,
                )
                &&& children_of(t).len() == shown.len()
                &&& forall|k: int, key: Seq<char>|
                    0 <= k < shown.len() && key != "children"@ ==> #[trigger] jget(
                        children_of(t)[k],
                        key,
                    ) == jget(shown[k], key)
            }
        }),
{
    let w = context_width(device_context);
    let h = context_height(device_context);
    let m = context_min_size(device_context);
    reveal_strlit("children");
    reveal_strlit("boundsInScreen");
    assert("boundsInScreen"@ != "children"@) by {
        assert("boundsInScreen"@.len() != "children"@.len());
    }
    lemma_filtered_members(a11y_tree, w, h, m, "boundsInScreen"@);
    if shows(a11y_tree, w, h, m) {
        let kept = kept_from(a11y_tree, 0, w, h, m);
        let t = with_member(a11y_tree, "children"@, JsonView::Array(kept));
        assert(concise_result(a11y_tree, device_context) == Some(t));
        assert forall|key: Seq<char>| key != "children"@ implies #[trigger] jget(t, key) == jget(
            a11y_tree,
            key,
        ) by {
            lemma_filtered_members(a11y_tree, w, h, m, key);
        }
        lemma_kept_showing(a11y_tree, 0, w, h, m);
        if a11y_tree is Object {
            lemma_with_member(a11y_tree, "children"@, JsonView::Array(kept), "boundsInScreen"@);
            assert(children_of(t) == kept);
        } else {
            assert(children_of(a11y_tree).len() == 0);
            assert(kept =~= Seq::<JsonView>::empty());
            assert(children_of(t) =~= kept);
        }
    }
}

} // verus!
