//! Composable element search filters over raw accessibility trees.
use vstd::prelude::*;

use crate::filter::side;
use crate::formatter::{bounds_object, json_preorder, json_preorder_from};
use crate::geometry::tdiv;
use crate::json::{
    as_text, children_of, flag_of, item_views, jget, json_equal, lemma_child_smaller, JsonValue,
    JsonView,
};
use crate::sort::{key_pos_leq, sort_key_pos};
use crate::text::{chars_of, contains, contains_chars, copy_range, rfind, rfind_chars};

verus! {

/// A filter over a list of tree nodes, returning the matching nodes.
pub enum ElementFilter {
    /// Nodes whose `text`, `contentDescription` or `hint` contains the pattern.
    TextMatches(String),
    /// Nodes whose `resourceId`, or its part after the last `/`, contains the
    /// pattern.
    IdMatches(String),
    /// Clickable nodes.
    Clickable,
    /// Nodes with a non-empty `text` or `contentDescription`.
    HasText,
    /// Nodes below the first node the inner filter finds, nearest first.
    Below(Box<ElementFilter>),
    /// The filters applied one after another.
    Compose(Vec<ElementFilter>),
}

// ---- trees ----

/// The nodes of a list of trees, each tree depth-first.
pub open spec fn forest_preorder(nodes: Seq<JsonView>) -> Seq<JsonView>
    decreases nodes.len(),
{
    if nodes.len() == 0 {
        seq![]
    } else {
        forest_preorder(nodes.drop_last()) + json_preorder(nodes.last())
    }
}

/// Flattens a tree node into the list of all its nodes, depth-first.
pub fn flatten_tree(root: &JsonValue) -> (r: Vec<JsonValue>)
    ensures
        item_views(r@) == json_preorder(root@),
    decreases root@,
{
    let mut results: Vec<JsonValue> = Vec::new();
    results.push(root.duplicate());
    let ghost kids = children_of(root@);
    assert(item_views(results@) =~= seq![root@]);
    match root.get("children") {
        Some(c) => match c.as_array() {
            Some(children) => {
                let mut i: usize = 0;
                while i < children.len()
                    invariant
                        kids == children_of(root@),
                        item_views(children@) == kids,
                        i <= children.len(),
                        item_views(results@) + json_preorder_from(root@, i as int) == json_preorder(
                            root@,
                        ),
                    decreases children.len() - i,
                {
                    proof {
                        lemma_child_smaller(root@, i as int);
                        assert(children@[i as int]@ == kids[i as int]);
                    }
                    let ghost before = item_views(results@);
                    let ghost sub = json_preorder(kids[i as int]);
                    let ghost rest = json_preorder_from(root@, i + 1);
                    assert(json_preorder_from(root@, i as int) == sub + rest);
                    let mut more = flatten_tree(&children[i]);
                    let ghost more_v = item_views(more@);
                    results.append(&mut more);
                    assert(item_views(results@) =~= before + more_v);
                    assert(before + sub + rest =~= before + (sub + rest));
                    i = i + 1;
                }
                assert(json_preorder_from(root@, kids.len() as int) == Seq::<JsonView>::empty());
            },
            None => {
                assert(json_preorder_from(root@, 0) == Seq::<JsonView>::empty());
            },
        },
        None => {
            assert(json_preorder_from(root@, 0) == Seq::<JsonView>::empty());
        },
    }
    assert(item_views(results@) =~= item_views(results@) + Seq::<JsonView>::empty());
    results
}

/// All nodes of all trees in the list.
fn flatten_all(nodes: &Vec<JsonValue>) -> (r: Vec<JsonValue>)
    ensures
        item_views(r@) == forest_preorder(item_views(nodes@)),
{
    let mut all: Vec<JsonValue> = Vec::new();
    let mut i: usize = 0;
    while i < nodes.len()
        invariant
            i <= nodes.len(),
            item_views(all@) == forest_preorder(item_views(nodes@).take(i as int)),
        decreases nodes.len() - i,
    {
        let ghost before = item_views(all@);
        let mut more = flatten_tree(&nodes[i]);
        let ghost more_v = item_views(more@);
        all.append(&mut more);
        assert(item_views(nodes@).take(i + 1).drop_last() =~= item_views(nodes@).take(i as int));
        assert(item_views(all@) =~= before + more_v);
        i = i + 1;
    }
    assert(item_views(nodes@).take(nodes.len() as int) =~= item_views(nodes@));
    all
}

/// The center of a node's `boundsInScreen` (missing sides are 0).
pub open spec fn node_center(node: JsonView) -> (int, int) {
    let b = bounds_object(node);
    (
        tdiv(side(b, "left"@, 0) + side(b, "right"@, 0), 2),
        tdiv(side(b, "top"@, 0) + side(b, "bottom"@, 0), 2),
    )
}

/// The center of a node's `boundsInScreen`.
pub fn get_element_center(node: &JsonValue) -> (r: (i32, i32))
    ensures
        r.0 == node_center(node@).0,
        r.1 == node_center(node@).1,
{
    let bounds = match node.get("boundsInScreen") {
        Some(b) => b.duplicate(),
        None => JsonValue::Null,
    };
    let left = crate::filter::int_field(&bounds, "left", 0) as i32;
    let top = crate::filter::int_field(&bounds, "top", 0) as i32;
    let right = crate::filter::int_field(&bounds, "right", 0) as i32;
    let bottom = crate::filter::int_field(&bounds, "bottom", 0) as i32;
    proof {
        crate::geometry::lemma_tdiv2_i32(left, right);
        crate::geometry::lemma_tdiv2_i32(top, bottom);
    }
    let cx = (left as i64 + right as i64) / 2;
    let cy = (top as i64 + bottom as i64) / 2;
    (cx as i32, cy as i32)
}

// ---- node tests ----

/// The text with each newline replaced by a space.
pub open spec fn newlines_to_spaces(s: Seq<char>) -> Seq<char> {
    Seq::new(s.len(), |i: int| if s[i] == '\n' { ' ' } else { s[i] })
}

/// A string value contains the pattern, as is or with newlines as spaces.
pub open spec fn value_matches(v: Option<JsonView>, pattern: Seq<char>) -> bool {
    match as_text(v) {
        Some(t) => contains(t, pattern) || contains(newlines_to_spaces(t), pattern),
        None => false,
    }
}

/// `text`, `contentDescription` or `hint` contains the pattern.
pub open spec fn text_hit(node: JsonView, pattern: Seq<char>) -> bool {
    value_matches(jget(node, "text"@), pattern) || value_matches(
        jget(node, "contentDescription"@),
        pattern,
    ) || value_matches(jget(node, "hint"@), pattern)
}

/// The part after the last `/`.
pub open spec fn after_last_slash(s: Seq<char>) -> Seq<char> {
    match rfind(s, "/"@) {
        Some(i) => s.skip(i + 1),
        None => s,
    }
}

/// `resourceId`, or its part after the last `/`, contains the pattern.
pub open spec fn id_hit(node: JsonView, pattern: Seq<char>) -> bool {
    match as_text(jget(node, "resourceId"@)) {
        Some(id) => contains(id, pattern) || contains(after_last_slash(id), pattern),
        None => false,
    }
}

/// A string value that is not empty.
pub open spec fn nonempty_text(v: Option<JsonView>) -> bool {
    match as_text(v) {
        Some(t) => t.len() > 0,
        None => false,
    }
}

/// `text` or `contentDescription` is a non-empty string.
pub open spec fn has_text_hit(node: JsonView) -> bool {
    nonempty_text(jget(node, "text"@)) || nonempty_text(jget(node, "contentDescription"@))
}

/// The nodes of `all` that satisfy the test of a simple filter, in order.
pub open spec fn keep_where(all: Seq<JsonView>, f: ElementFilter) -> Seq<JsonView>
    decreases all.len(),
{
    if all.len() == 0 {
        seq![]
    } else {
        let p = keep_where(all.drop_last(), f);
        let n = all.last();
        let hit = match f {
            ElementFilter::TextMatches(p) => text_hit(n, p@),
            ElementFilter::IdMatches(p) => id_hit(n, p@),
            ElementFilter::Clickable => flag_of(n, "isClickable"@),
            ElementFilter::HasText => has_text_hit(n),
            _ => false,
        };
        if hit {
            p.push(n)
        } else {
            p
        }
    }
}

fn value_matches_exec(v: Option<&JsonValue>, pattern: &[char]) -> (r: bool)
    ensures
        r == value_matches(crate::json::view_opt(v), pattern@),
{
    match v {
        Some(x) => match x.as_str() {
            Some(t) => {
                let tc = chars_of(t);
                if contains_chars(tc.as_slice(), pattern) {
                    return true;
                }
                let mut norm: Vec<char> = Vec::new();
                let mut i: usize = 0;
                while i < tc.len()
                    invariant
                        i <= tc.len(),
                        norm@ =~= newlines_to_spaces(tc@).take(i as int),
                    decreases tc.len() - i,
                {
                    if tc[i] == '\n' {
                        norm.push(' ');
                    } else {
                        norm.push(tc[i]);
                    }
                    i = i + 1;
                }
                assert(norm@ =~= newlines_to_spaces(tc@));
                contains_chars(norm.as_slice(), pattern)
            },
            None => false,
        },
        None => false,
    }
}

fn node_hit(n: &JsonValue, f: &ElementFilter) -> (r: bool)
    requires
        f is TextMatches || f is IdMatches || f is Clickable || f is HasText,
    ensures
        r == match *f {
            ElementFilter::TextMatches(p) => text_hit(n@, p@),
            ElementFilter::IdMatches(p) => id_hit(n@, p@),
            ElementFilter::Clickable => flag_of(n@, "isClickable"@),
            ElementFilter::HasText => has_text_hit(n@),
            _ => false,
        },
{
    match f {
        ElementFilter::TextMatches(p) => {
            let pc = chars_of(p.as_str());
            value_matches_exec(n.get("text"), pc.as_slice()) || value_matches_exec(
                n.get("contentDescription"),
                pc.as_slice(),
            ) || value_matches_exec(n.get("hint"), pc.as_slice())
        },
        ElementFilter::IdMatches(p) => {
            let pc = chars_of(p.as_str());
            match n.get("resourceId") {
                Some(v) => match v.as_str() {
                    Some(id) => {
                        let ic = chars_of(id);
                        if contains_chars(ic.as_slice(), pc.as_slice()) {
                            return true;
                        }
                        let slash = chars_of("/");
                        let len = ic.len();
                        let short = match rfind_chars(ic.as_slice(), slash.as_slice()) {
                            Some(i) => {
                                proof {
                                    crate::text::lemma_rfind_bounds(ic@, slash@);
                                    reveal_strlit("/");
                                }
                                copy_range(ic.as_slice(), i + 1, len)
                            },
                            None => ic,
                        };
                        contains_chars(short.as_slice(), pc.as_slice())
                    },
                    None => false,
                },
                None => false,
            }
        },
        ElementFilter::Clickable => crate::formatter::flag_field(n, "isClickable"),
        ElementFilter::HasText => {
            let t = match n.get("text") {
                Some(v) => match v.as_str() {
                    Some(s) => !s.is_empty(),
                    None => false,
                },
                None => false,
            };
            t || match n.get("contentDescription") {
                Some(v) => match v.as_str() {
                    Some(s) => !s.is_empty(),
                    None => false,
                },
                None => false,
            }
        },
        _ => false,
    }
}

// ---- below ----

/// The top edge of a node's `boundsInScreen` (0 when missing).
pub open spec fn top_of(n: JsonView) -> i32 {
    side(bounds_object(n), "top"@, 0)
}

/// The bottom edge of a node's `boundsInScreen` (0 when missing).
pub open spec fn bottom_of(n: JsonView) -> i32 {
    side(bounds_object(n), "bottom"@, 0)
}

/// The squared distance between the centers of two nodes.
pub open spec fn sq_dist(n: JsonView, a: JsonView) -> int {
    let (nx, ny) = node_center(n);
    let (ax, ay) = node_center(a);
    (nx - ax) * (nx - ax) + (ny - ay) * (ny - ay)
}

/// The nodes of `all`, other than the anchor, whose top lies below the
/// anchor's bottom, in order.
pub open spec fn below_candidates(all: Seq<JsonView>, anchor: JsonView) -> Seq<JsonView>
    decreases all.len(),
{
    if all.len() == 0 {
        seq![]
    } else {
        let p = below_candidates(all.drop_last(), anchor);
        let n = all.last();
        if n != anchor && top_of(n) > bottom_of(anchor) {
            p.push(n)
        } else {
            p
        }
    }
}

/// Each candidate's distance to the anchor, with its position.
pub open spec fn keyed(cands: Seq<JsonView>, anchor: JsonView) -> Seq<(i128, usize)> {
    Seq::new(cands.len(), |i: int| (sq_dist(cands[i], anchor) as i128, i as usize))
}

/// The nodes below the first anchor found, nearest first (ties in document
/// order); nothing when no anchor is found.
pub open spec fn below_result(anchors: Seq<JsonView>, nodes: Seq<JsonView>) -> Seq<JsonView> {
    if anchors.len() == 0 {
        seq![]
    } else {
        let a = anchors[0];
        let cands = below_candidates(forest_preorder(nodes), a);
        keyed(cands, a).sort_by(key_pos_leq()).map_values(|kp: (i128, usize)| cands[kp.1 as int])
    }
}

proof fn lemma_candidates(all: Seq<JsonView>, anchor: JsonView)
    ensures
        below_candidates(all, anchor).len() <= all.len(),
        forall|k: int|
            0 <= k < below_candidates(all, anchor).len() ==> (#[trigger] below_candidates(
                all,
                anchor,
            )[k]) != anchor && top_of(below_candidates(all, anchor)[k]) > bottom_of(anchor),
    decreases all.len(),
{
    if all.len() > 0 {
        lemma_candidates(all.drop_last(), anchor);
    }
}

proof fn lemma_sq_dist_fits(n: JsonView, a: JsonView)
    ensures
        0 <= sq_dist(n, a) <= i128::MAX,
{
    let bn = bounds_object(n);
    let ba = bounds_object(a);
    crate::geometry::lemma_tdiv2_i32(side(bn, "left"@, 0), side(bn, "right"@, 0));
    crate::geometry::lemma_tdiv2_i32(side(bn, "top"@, 0), side(bn, "bottom"@, 0));
    crate::geometry::lemma_tdiv2_i32(side(ba, "left"@, 0), side(ba, "right"@, 0));
    crate::geometry::lemma_tdiv2_i32(side(ba, "top"@, 0), side(ba, "bottom"@, 0));
    let (nx, ny) = node_center(n);
    let (ax, ay) = node_center(a);
    let dx = nx - ax;
    let dy = ny - ay;
    assert(0 <= dx * dx <= 0x1_0000_0000_0000_0000) by (nonlinear_arith)
        requires
            -0x1_0000_0000 <= dx <= 0x1_0000_0000,
    ;
    assert(0 <= dy * dy <= 0x1_0000_0000_0000_0000) by (nonlinear_arith)
        requires
            -0x1_0000_0000 <= dy <= 0x1_0000_0000,
    ;
}

/// The nodes `below` finds lie below the anchor (their top under its bottom),
/// are not the anchor, and come nearest first.
pub proof fn lemma_below_ordered(anchors: Seq<JsonView>, nodes: Seq<JsonView>)
    requires
        anchors.len() > 0,
        forest_preorder(nodes).len() <= usize::MAX,
    ensures
        ({
            let a = anchors[0];
            let r = below_result(anchors, nodes);
            &&& forall|i: int|
                0 <= i < r.len() ==> (#[trigger] r[i]) != a && top_of(r[i]) > bottom_of(a)
            &&& forall|i: int, j: int|
                0 <= i <= j < r.len() ==> sq_dist(#[trigger] r[i], a) <= sq_dist(#[trigger] r[j], a)
        }),
{
    let a = anchors[0];
    let all = forest_preorder(nodes);
    let cands = below_candidates(all, a);
    let kv = keyed(cands, a);
    let leq = key_pos_leq();
    let sorted = kv.sort_by(leq);
    let r = below_result(anchors, nodes);
    lemma_candidates(all, a);
    crate::sort::lemma_key_pos_leq_total();
    kv.lemma_sort_by_ensures(leq);
    vstd::seq_lib::to_multiset_len(kv);
    vstd::seq_lib::to_multiset_len(sorted);
    assert(r == sorted.map_values(|kp: (i128, usize)| cands[kp.1 as int]));
    assert forall|k: int| 0 <= k < sorted.len() implies (#[trigger] sorted[k]).1 < cands.len()
        && sorted[k].0 == sq_dist(cands[sorted[k].1 as int], a) by {
        assert(sorted.contains(sorted[k]));
        assert(kv.contains(sorted[k]));
        let i = choose|i: int| 0 <= i < kv.len() && kv[i] == sorted[k];
        lemma_sq_dist_fits(cands[i], a);
        assert(kv[i] == (sq_dist(cands[i], a) as i128, i as usize));
    }
    assert forall|i: int| 0 <= i < r.len() implies (#[trigger] r[i]) != a && top_of(r[i])
        > bottom_of(a) by {
        assert(r[i] == cands[sorted[i].1 as int]);
    }
    assert forall|i: int, j: int| 0 <= i <= j < r.len() implies sq_dist(#[trigger] r[i], a)
        <= sq_dist(#[trigger] r[j], a) by {
        assert(r[i] == cands[sorted[i].1 as int]);
        assert(r[j] == cands[sorted[j].1 as int]);
        if i < j {
            assert(leq(sorted[i], sorted[j]));
        }
    }
}

// ---- applying a filter ----

/// What a filter returns for a list of nodes.
pub open spec fn filter_result(f: ElementFilter, nodes: Seq<JsonView>) -> Seq<JsonView>
    decreases f, 0int,
{
    match f {
        ElementFilter::Below(inner) => below_result(filter_result(*inner, nodes), nodes),
        ElementFilter::Compose(fs) => {
            proof {
                vstd::std_specs::vec::axiom_vec_decreases_to_view(fs);
            }
            compose_from(fs@, 0, nodes)
        },
        _ => keep_where(forest_preorder(nodes), f),
    }
}

/// Applies the filters from position `i` on, stopping at an empty result.
pub open spec fn compose_from(fs: Seq<ElementFilter>, i: int, cur: Seq<JsonView>) -> Seq<JsonView>
    decreases fs, fs.len() - i,
{
    if i < 0 || i >= fs.len() {
        cur
    } else {
        let r = filter_result(fs[i], cur);
        if r.len() == 0 {
            r
        } else {
            compose_from(fs, i + 1, r)
        }
    }
}

/// The node test of a simple filter: `TextMatches` and `IdMatches` look for
/// the pattern in the node's text or id, `Clickable` asks for `isClickable`
/// true, `HasText` for a non-empty text or content description.
pub open spec fn passes(f: ElementFilter, n: JsonView) -> bool {
    match f {
        ElementFilter::TextMatches(p) => text_hit(n, p@),
        ElementFilter::IdMatches(p) => id_hit(n, p@),
        ElementFilter::Clickable => flag_of(n, "isClickable"@),
        ElementFilter::HasText => has_text_hit(n),
        _ => true,
    }
}

/// A simple filter: one that tests nodes one by one.
pub open spec fn is_simple(f: ElementFilter) -> bool {
    f is TextMatches || f is IdMatches || f is Clickable || f is HasText
}

/// Every node a simple filter keeps passes its test.
proof fn lemma_keep_where_passes(all: Seq<JsonView>, f: ElementFilter)
    requires
        is_simple(f),
    ensures
        forall|k: int|
            0 <= k < keep_where(all, f).len() ==> passes(f, #[trigger] keep_where(all, f)[k]),
    decreases all.len(),
{
    if all.len() > 0 {
        lemma_keep_where_passes(all.drop_last(), f);
        let p = keep_where(all.drop_last(), f);
        let n = all.last();
        let kw = keep_where(all, f);
        if passes(f, n) {
            assert(kw == p.push(n));
        } else {
            assert(kw == p);
        }
        assert forall|k: int| 0 <= k < kw.len() implies passes(f, #[trigger] kw[k]) by {
            if k < p.len() {
                assert(kw[k] == p[k]);
            }
        }
    }
}

/// Applying the filters from position `i + 1` on is applying those of the
/// list without its first filter from position `i` on.
proof fn lemma_compose_shift(fs: Seq<ElementFilter>, i: int, cur: Seq<JsonView>)
    requires
        0 <= i,
        fs.len() > 0,
    ensures
        compose_from(fs, i + 1, cur) == compose_from(fs.skip(1), i, cur),
    decreases fs.len() - i,
{
    if i + 1 < fs.len() {
        let r = filter_result(fs[i + 1], cur);
        assert(fs.skip(1)[i] == fs[i + 1]);
        if r.len() > 0 {
            lemma_compose_shift(fs, i + 1, r);
        }
    }
}

/// What the filters from position `i` on give, when `i` is a position of the
/// list, passes the last filter's test when that filter is simple.
proof fn lemma_compose_last(fs: Seq<ElementFilter>, i: int, cur: Seq<JsonView>)
    requires
        0 <= i < fs.len(),
        is_simple(fs.last()),
    ensures
        forall|k: int|
            0 <= k < compose_from(fs, i, cur).len() ==> passes(
                fs.last(),
                #[trigger] compose_from(fs, i, cur)[k],
            ),
    decreases fs.len() - i,
{
    let r = filter_result(fs[i], cur);
    if r.len() > 0 {
        assert(compose_from(fs, i, cur) == compose_from(fs, i + 1, r));
        if i + 1 < fs.len() {
            lemma_compose_last(fs, i + 1, r);
        } else {
            assert(fs[i] == fs.last());
            assert(r == keep_where(forest_preorder(cur), fs.last()));
            lemma_keep_where_passes(forest_preorder(cur), fs.last());
            assert(compose_from(fs, i + 1, r) == r);
        }
    } else {
        assert(compose_from(fs, i, cur) == r);
    }
}

/// A composed filter is a pipeline: with no filters it gives the nodes
/// back; otherwise it runs the first filter on the nodes and, when that
/// finds something, the remaining filters (the composed filter `rest`) on
/// what it found, and it gives nothing when the first filter finds nothing.
/// A single filter composed is that filter. When the last filter tests nodes
/// one by one, every node the pipeline gives passes that test (with
/// `clickable()` last, every node is clickable).
pub proof fn lemma_compose_pipeline(f: ElementFilter, rest: ElementFilter, nodes: Seq<JsonView>)
    requires
        f is Compose,
        rest is Compose,
        f->Compose_0@.len() > 0 ==> rest->Compose_0@ == f->Compose_0@.skip(1),
    ensures
        ({
            let fs = f->Compose_0@;
            &&& fs.len() == 0 ==> filter_result(f, nodes) == nodes
            &&& fs.len() > 0 && filter_result(fs[0], nodes).len() == 0 ==> filter_result(
                f,
                nodes,
            ).len() == 0
            &&& fs.len() > 0 && filter_result(fs[0], nodes).len() > 0 ==> filter_result(f, nodes)
                == filter_result(rest, filter_result(fs[0], nodes))
            &&& fs.len() == 1 ==> filter_result(f, nodes) == filter_result(fs[0], nodes)
            &&& fs.len() > 0 && is_simple(fs.last()) ==> forall|k: int|
                0 <= k < filter_result(f, nodes).len() ==> passes(
                    fs.last(),
                    #[trigger] filter_result(f, nodes)[k],
                )
        }),
{
    let fs = f->Compose_0@;
    assert(filter_result(f, nodes) == compose_from(fs, 0, nodes));
    if fs.len() > 0 {
        let r0 = filter_result(fs[0], nodes);
        if r0.len() > 0 {
            lemma_compose_shift(fs, 0, r0);
            assert(filter_result(rest, r0) == compose_from(rest->Compose_0@, 0, r0));
        }
        if fs.len() == 1 && r0.len() > 0 {
            assert(compose_from(fs, 1, r0) == r0);
        }
        if is_simple(fs.last()) {
            lemma_compose_last(fs, 0, nodes);
        }
    }
}

fn duplicate_all(nodes: &Vec<JsonValue>) -> (r: Vec<JsonValue>)
    ensures
        item_views(r@) == item_views(nodes@),
{
    let mut out: Vec<JsonValue> = Vec::new();
    let mut i: usize = 0;
    while i < nodes.len()
        invariant
            i <= nodes.len(),
            item_views(out@) =~= item_views(nodes@).take(i as int),
        decreases nodes.len() - i,
    {
        let ghost before = item_views(out@);
        let c = nodes[i].duplicate();
        out.push(c);
        assert(item_views(out@) =~= before.push(nodes@[i as int]@));
        assert(item_views(nodes@).take(i + 1) =~= item_views(nodes@).take(i as int).push(
            nodes@[i as int]@,
        ));
        i = i + 1;
    }
    out
}

fn keep_simple(f: &ElementFilter, nodes: &Vec<JsonValue>) -> (r: Vec<JsonValue>)
    requires
        f is TextMatches || f is IdMatches || f is Clickable || f is HasText,
    ensures
        item_views(r@) == keep_where(forest_preorder(item_views(nodes@)), *f),
{
    let all = flatten_all(nodes);
    let ghost av = item_views(all@);
    let mut out: Vec<JsonValue> = Vec::new();
    let mut i: usize = 0;
    while i < all.len()
        invariant
            av == item_views(all@),
            i <= all.len(),
            f is TextMatches || f is IdMatches || f is Clickable || f is HasText,
            item_views(out@) == keep_where(av.take(i as int), *f),
        decreases all.len() - i,
    {
        assert(av.take(i + 1).drop_last() =~= av.take(i as int));
        let hit = node_hit(&all[i], f);
        if hit {
            let ghost before = item_views(out@);
            out.push(all[i].duplicate());
            assert(item_views(out@) =~= before.push(av[i as int]));
        }
        i = i + 1;
    }
    assert(av.take(all.len() as int) =~= av);
    out
}

fn below_apply(anchor_results: &Vec<JsonValue>, nodes: &Vec<JsonValue>) -> (r: Vec<JsonValue>)
    ensures
        item_views(r@) == below_result(item_views(anchor_results@), item_views(nodes@)),
{
    if anchor_results.len() == 0 {
        return Vec::new();
    }
    let anchor = &anchor_results[0];
    let ghost a = anchor@;
    assert(a == item_views(anchor_results@)[0]);
    let (ax, ay) = get_element_center(anchor);
    let ab = match anchor.get("boundsInScreen") {
        Some(b) => b.duplicate(),
        None => JsonValue::Null,
    };
    let anchor_bottom = crate::filter::int_field(&ab, "bottom", 0) as i32;
    let all = flatten_all(nodes);
    let ghost av = item_views(all@);
    let mut cands: Vec<JsonValue> = Vec::new();
    let mut keys: Vec<(i128, usize)> = Vec::new();
    let mut i: usize = 0;
    while i < all.len()
        invariant
            av == item_views(all@),
            av == forest_preorder(item_views(nodes@)),
            i <= all.len(),
            a == anchor@,
            ax == node_center(a).0,
            ay == node_center(a).1,
            anchor_bottom == bottom_of(a),
            item_views(cands@) == below_candidates(av.take(i as int), a),
            keys@ == keyed(item_views(cands@), a),
            cands.len() <= i,
        decreases all.len() - i,
    {
        assert(av.take(i + 1).drop_last() =~= av.take(i as int));
        let n = &all[i];
        if !json_equal(n, anchor) {
            let nb = match n.get("boundsInScreen") {
                Some(b) => b.duplicate(),
                None => JsonValue::Null,
            };
            let top = crate::filter::int_field(&nb, "top", 0) as i32;
            if top > anchor_bottom {
                let (nx, ny) = get_element_center(n);
                let dx = nx as i128 - ax as i128;
                let dy = ny as i128 - ay as i128;
                assert(dx * dx <= 0x1_0000_0000_0000_0000_0000) by (nonlinear_arith)
                    requires
                        -0x1_0000_0000 <= dx <= 0x1_0000_0000,
                ;
                assert(dy * dy <= 0x1_0000_0000_0000_0000_0000) by (nonlinear_arith)
                    requires
                        -0x1_0000_0000 <= dy <= 0x1_0000_0000,
                ;
                assert(0 <= dx * dx && 0 <= dy * dy) by (nonlinear_arith);
                let d = dx * dx + dy * dy;
                let ghost cv = item_views(cands@);
                let pos = cands.len();
                keys.push((d, pos));
                cands.push(n.duplicate());
                assert(item_views(cands@) =~= cv.push(av[i as int]));
                assert(keys@ =~= keyed(item_views(cands@), a));
            }
        }
        i = i + 1;
    }
    assert(av.take(all.len() as int) =~= av);
    let ghost cv = item_views(cands@);
    let ghost kv = keys@;
    let sorted = sort_key_pos(keys);
    proof {
        crate::sort::lemma_key_pos_leq_total();
        kv.lemma_sort_by_ensures(key_pos_leq());
        vstd::seq_lib::to_multiset_len(kv);
        vstd::seq_lib::to_multiset_len(sorted@);
        assert forall|j: int| 0 <= j < sorted@.len() implies (#[trigger] sorted@[j]).1 < cands.len() by {
            assert(sorted@.contains(sorted@[j]));
            assert(kv.contains(sorted@[j]));
        }
    }
    let mut out: Vec<JsonValue> = Vec::new();
    let mut j: usize = 0;
    while j < sorted.len()
        invariant
            j <= sorted.len(),
            cv == item_views(cands@),
            forall|k: int| 0 <= k < sorted@.len() ==> (#[trigger] sorted@[k]).1 < cands.len(),
            item_views(out@) =~= sorted@.map_values(|kp: (i128, usize)| cv[kp.1 as int]).take(
                j as int,
            ),
        decreases sorted.len() - j,
    {
        let k = sorted[j].1;
        let ghost before = item_views(out@);
        let ghost m = sorted@.map_values(|kp: (i128, usize)| cv[kp.1 as int]);
        let c = cands[k].duplicate();
        out.push(c);
        assert(c@ == cv[k as int]);
        assert(m[j as int] == cv[k as int]);
        assert(item_views(out@) =~= before.push(cv[k as int]));
        assert(m.take(j + 1) =~= m.take(j as int).push(m[j as int]));
        j = j + 1;
    }
    assert(sorted@.map_values(|kp: (i128, usize)| cv[kp.1 as int]).take(sorted.len() as int)
        =~= sorted@.map_values(|kp: (i128, usize)| cv[kp.1 as int]));
    out
}

impl ElementFilter {
    /// Applies the filter to a list of nodes.
    pub fn apply(&self, nodes: &Vec<JsonValue>) -> (r: Vec<JsonValue>)
        ensures
            item_views(r@) == filter_result(*self, item_views(nodes@)),
        decreases *self,
    {
        match self {
            ElementFilter::Below(inner) => {
                let anchors = inner.apply(nodes);
                below_apply(&anchors, nodes)
            },
            ElementFilter::Compose(filters) => {
                let ghost fs = filters@;
                let mut result = duplicate_all(nodes);
                let mut i: usize = 0;
                while i < filters.len()
                    invariant
                        *self == ElementFilter::Compose(*filters),
                        fs == filters@,
                        i <= fs.len(),
                        compose_from(fs, 0, item_views(nodes@)) == compose_from(
                            fs,
                            i as int,
                            item_views(result@),
                        ),
                    decreases fs.len() - i,
                {
                    proof {
                        assert(decreases_to!(*self => (*self)->Compose_0));
                        vstd::std_specs::vec::axiom_vec_index_decreases(*filters, i as int);
                    }
                    let next = filters[i].apply(&result);
                    if next.len() == 0 {
                        return next;
                    }
                    result = next;
                    i = i + 1;
                }
                result
            },
            _ => keep_simple(self, nodes),
        }
    }
}

// ---- constructors ----

/// Matches elements by text content (text, contentDescription or hint).
pub fn text_matches(pattern: &str) -> (r: ElementFilter)
    ensures
        r matches ElementFilter::TextMatches(p) && p@ == pattern@,
{
    ElementFilter::TextMatches(pattern.to_owned())
}

/// Matches elements by resource ID.
pub fn id_matches(pattern: &str) -> (r: ElementFilter)
    ensures
        r matches ElementFilter::IdMatches(p) && p@ == pattern@,
{
    ElementFilter::IdMatches(pattern.to_owned())
}

/// Matches clickable elements.
pub fn clickable() -> (r: ElementFilter)
    ensures
        r is Clickable,
{
    ElementFilter::Clickable
}

/// Matches elements that have non-empty text.
pub fn has_text() -> (r: ElementFilter)
    ensures
        r is HasText,
{
    ElementFilter::HasText
}

/// Finds elements positioned below an anchor.
pub fn below(anchor_filter: ElementFilter) -> (r: ElementFilter)
    ensures
        r == ElementFilter::Below(Box::new(anchor_filter)),
{
    ElementFilter::Below(Box::new(anchor_filter))
}

/// Composes filters sequentially (pipeline).
pub fn compose(filters: Vec<ElementFilter>) -> (r: ElementFilter)
    ensures
        r == ElementFilter::Compose(filters),
{
    ElementFilter::Compose(filters)
}

} // verus!
