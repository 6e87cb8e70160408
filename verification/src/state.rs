//! A snapshot of the device UI: the indexed element tree, with lookup of an
//! element by index, tap-point resolution and coordinate conversion.
use vstd::prelude::*;

use crate::coord::{absolute_of, fits_product, to_absolute};
use crate::error::{DroidrunError, Result};
use crate::geometry::{
    center_of, clear_point, find_clear_point, inside, lemma_clear_point_unblocked,
    lemma_clear_point_within, overlap, parsed_bounds, Bounds,
};
use crate::json::JsonValue;
use crate::sort::{index_leq, sort_indices};

verus! {

/// A UI element from the accessibility tree.
#[derive(Debug)]
pub struct Element {
    pub index: usize,
    pub class_name: String,
    pub resource_id: String,
    pub text: String,
    pub bounds: String,
    pub checked_state: String,
    pub children: Vec<Element>,
}

/// Phone state information.
#[derive(Debug)]
pub struct PhoneState {
    pub current_app: String,
    pub package_name: String,
    pub is_editable: bool,
    pub focused_element: Option<JsonValue>,
}

impl Default for PhoneState {
    fn default() -> (r: Self)
        ensures
            r.current_app@ == Seq::<char>::empty(),
            r.package_name@ == Seq::<char>::empty(),
            !r.is_editable,
            r.focused_element is None,
    {
        PhoneState {
            current_app: String::new(),
            package_name: String::new(),
            is_editable: false,
            focused_element: None,
        }
    }
}

/// Screen dimensions.
#[derive(Debug, Clone, Copy)]
pub struct ScreenDimensions {
    pub width: i32,
    pub height: i32,
}

/// A snapshot of the device UI state.
#[derive(Debug)]
pub struct UIState {
    pub elements: Vec<Element>,
    pub formatted_text: String,
    pub focused_text: String,
    pub phone_state: PhoneState,
    pub screen: ScreenDimensions,
    pub use_normalized: bool,
}

/// Basic element info for display.
#[derive(Debug, Clone)]
pub struct ElementInfo {
    pub text: String,
    pub class_name: String,
    pub bounds: String,
}

/// The children of the `i`-th element are structurally smaller than the
/// sequence that holds it.
pub proof fn lemma_children_smaller(s: Seq<Element>, i: int)
    requires
        0 <= i < s.len(),
    ensures
        decreases_to!(s => s[i].children@),
{
    assert(decreases_to!(s => s[i]));
    assert(decreases_to!(s[i] => s[i].children));
    vstd::std_specs::vec::axiom_vec_decreases_to_view(s[i].children);
}

/// The elements from position `i` on, each followed by its descendants
/// (depth-first, in document order).
pub open spec fn preorder_from(s: Seq<Element>, i: int) -> Seq<Element>
    decreases s, s.len() - i,
{
    if i < 0 || i >= s.len() {
        seq![]
    } else {
        proof {
            lemma_children_smaller(s, i);
        }
        seq![s[i]] + preorder_from(s[i].children@, 0) + preorder_from(s, i + 1)
    }
}

/// Every element of a forest, depth-first in document order.
pub open spec fn preorder(s: Seq<Element>) -> Seq<Element> {
    preorder_from(s, 0)
}

/// The first element of `q` with the given index.
pub open spec fn first_match(q: Seq<Element>, target: usize) -> Option<Element>
    decreases q.len(),
{
    if q.len() == 0 {
        None
    } else if q[0].index == target {
        Some(q[0])
    } else {
        first_match(q.drop_first(), target)
    }
}

/// The element with the given index: the first one met in a depth-first walk.
pub open spec fn element_at(s: Seq<Element>, target: usize) -> Option<Element> {
    first_match(preorder(s), target)
}

proof fn lemma_first_match_concat(a: Seq<Element>, b: Seq<Element>, target: usize)
    ensures
        first_match(a + b, target) == match first_match(a, target) {
            Some(x) => Some(x),
            None => first_match(b, target),
        },
    decreases a.len(),
{
    if a.len() > 0 {
        assert((a + b).drop_first() == a.drop_first() + b);
        lemma_first_match_concat(a.drop_first(), b, target);
    } else {
        assert(a + b == b);
    }
}

proof fn lemma_first_match_sound(q: Seq<Element>, target: usize)
    ensures
        first_match(q, target) matches Some(e) ==> e.index == target && q.contains(e),
        (exists|k: int| 0 <= k < q.len() && (#[trigger] q[k]).index == target) ==> first_match(
            q,
            target,
        ) is Some,
    decreases q.len(),
{
    if q.len() > 0 {
        lemma_first_match_sound(q.drop_first(), target);
        if q[0].index != target {
            if let Some(e) = first_match(q, target) {
                let k = choose|k: int| 0 <= k < q.drop_first().len() && q.drop_first()[k] == e;
                assert(q[k + 1] == e);
            }
            if exists|k: int| 0 <= k < q.len() && (#[trigger] q[k]).index == target {
                let k = choose|k: int| 0 <= k < q.len() && (#[trigger] q[k]).index == target;
                assert(k > 0);
                assert(q.drop_first()[k - 1].index == target);
            }
        } else {
            assert(q[0] == q[0]);
            assert(q.contains(q[0]));
        }
    }
}

/// The element found for an index is an element of the forest with that
/// index, and one is found whenever the forest has an element with it.
pub proof fn lemma_element_at(s: Seq<Element>, target: usize)
    ensures
        element_at(s, target) matches Some(e) ==> e.index == target && preorder(s).contains(e),
        (exists|k: int| 0 <= k < preorder(s).len() && (#[trigger] preorder(s)[k]).index == target)
            ==> element_at(s, target) is Some,
{
    lemma_first_match_sound(preorder(s), target);
}

/// Finds an element by index (depth-first search).
fn find_by_index(elements: &Vec<Element>, target: usize) -> (r: Option<&Element>)
    ensures
        match first_match(preorder(elements@), target) {
            Some(e) => r == Some(&e),
            None => r is None,
        },
    decreases elements@,
{
    let ghost s = elements@;
    let mut i: usize = 0;
    while i < elements.len()
        invariant
            s == elements@,
            i <= s.len(),
            first_match(preorder_from(s, 0), target) == first_match(preorder_from(s, i as int), target),
        decreases s.len() - i,
    {
        let ghost here = preorder_from(s, i as int);
        let ghost sub = preorder_from(s[i as int].children@, 0);
        let ghost rest = preorder_from(s, i + 1);
        proof {
            assert(here == seq![s[i as int]] + sub + rest);
            assert(seq![s[i as int]] + sub + rest == seq![s[i as int]] + (sub + rest));
            lemma_first_match_concat(seq![s[i as int]], sub + rest, target);
            lemma_first_match_concat(sub, rest, target);
            assert(seq![s[i as int]].drop_first() =~= Seq::<Element>::empty());
            assert(first_match(Seq::<Element>::empty(), target) is None);
        }
        if elements[i].index == target {
            return Some(&elements[i]);
        }
        proof {
            lemma_children_smaller(s, i as int);
        }
        let found = find_by_index(&elements[i].children, target);
        assert(elements[i as int].children@ == s[i as int].children@);
        assert(first_match(seq![s[i as int]], target) is None);
        if found.is_some() {
            return found;
        }
        i = i + 1;
    }
    None
}

/// The elements behind a sequence of references.
pub open spec fn deref_all(s: Seq<&Element>) -> Seq<Element> {
    Seq::new(s.len(), |i: int| *s[i])
}

/// Every element of the forest, depth-first in document order.
fn collect_all(elements: &Vec<Element>) -> (r: Vec<&Element>)
    ensures
        deref_all(r@) == preorder(elements@),
    decreases elements@,
{
    let ghost s = elements@;
    let mut result: Vec<&Element> = Vec::new();
    let mut i: usize = 0;
    assert(deref_all(result@) =~= Seq::<Element>::empty());
    while i < elements.len()
        invariant
            s == elements@,
            i <= s.len(),
            deref_all(result@) + preorder_from(s, i as int) == preorder_from(s, 0),
        decreases s.len() - i,
    {
        let ghost here = preorder_from(s, i as int);
        let ghost sub = preorder_from(s[i as int].children@, 0);
        let ghost rest = preorder_from(s, i + 1);
        assert(here == seq![s[i as int]] + sub + rest);
        let ghost before = deref_all(result@);
        result.push(&elements[i]);
        assert(deref_all(result@) =~= before + seq![s[i as int]]);
        proof {
            lemma_children_smaller(s, i as int);
        }
        let mut sub_all = collect_all(&elements[i].children);
        assert(elements[i as int].children@ == s[i as int].children@);
        let ghost mid = deref_all(result@);
        result.append(&mut sub_all);
        assert(deref_all(result@) =~= mid + sub);
        assert(before + seq![s[i as int]] + sub + rest =~= before + here);
        i = i + 1;
    }
    assert(deref_all(result@) =~= deref_all(result@) + preorder_from(s, i as int));
    result
}

/// The indices of the elements of a sequence.
pub open spec fn index_list(q: Seq<Element>) -> Seq<usize> {
    Seq::new(q.len(), |i: int| q[i].index)
}

/// Every index of the forest, in ascending order.
fn collect_indices(elements: &Vec<Element>) -> (r: Vec<usize>)
    ensures
        r@ == index_list(preorder(elements@)).sort_by(index_leq()),
{
    let all = collect_all(elements);
    let ghost q = deref_all(all@);
    let mut indices: Vec<usize> = Vec::new();
    let mut i: usize = 0;
    while i < all.len()
        invariant
            q == deref_all(all@),
            i <= all.len(),
            indices@ =~= index_list(q).take(i as int),
        decreases all.len() - i,
    {
        indices.push(all[i].index);
        i = i + 1;
    }
    assert(indices@ =~= index_list(q));
    sort_indices(indices)
}

/// The rectangles that can cover `target`: those of elements with a larger
/// index and a readable, non-empty bounds text that overlap it.
pub open spec fn blockers_of(q: Seq<Element>, index: usize, target: Bounds) -> Seq<Bounds>
    decreases q.len(),
{
    if q.len() == 0 {
        seq![]
    } else {
        let p = blockers_of(q.drop_last(), index, target);
        let e = q.last();
        if e.index > index && e.bounds@.len() > 0 && parsed_bounds(e.bounds@) is Some && overlap(
            target,
            parsed_bounds(e.bounds@)->0,
        ) {
            p.push(parsed_bounds(e.bounds@)->0)
        } else {
            p
        }
    }
}

/// A later element holds the point: its index is above `index` and its
/// (non-empty) bounds parse to a rectangle that contains `(x, y)`.
pub open spec fn later_holds(e: Element, index: usize, x: int, y: int) -> bool {
    &&& e.index > index
    &&& e.bounds@.len() > 0
    &&& parsed_bounds(e.bounds@) matches Some(b) && inside(b, x, y)
}

/// Some element of `q` after `index` covers `(x, y)`.
pub open spec fn covered_by_later(q: Seq<Element>, index: usize, x: int, y: int) -> bool {
    exists|k: int| 0 <= k < q.len() && #[trigger] later_holds(q[k], index, x, y)
}

/// Every later element whose rectangle overlaps the target is among the
/// blockers.
proof fn lemma_blocker_listed(q: Seq<Element>, index: usize, target: Bounds, k: int)
    requires
        0 <= k < q.len(),
        q[k].index > index,
        q[k].bounds@.len() > 0,
        parsed_bounds(q[k].bounds@) matches Some(b) && overlap(target, b),
    ensures
        exists|j: int|
            0 <= j < blockers_of(q, index, target).len() && #[trigger] blockers_of(
                q,
                index,
                target,
            )[j] == parsed_bounds(q[k].bounds@)->0,
    decreases q.len(),
{
    let bl = blockers_of(q, index, target);
    if k == q.len() - 1 {
        assert(bl.last() == parsed_bounds(q[k].bounds@)->0);
        assert(bl[bl.len() - 1] == parsed_bounds(q[k].bounds@)->0);
    } else {
        lemma_blocker_listed(q.drop_last(), index, target, k);
        let p = blockers_of(q.drop_last(), index, target);
        let j = choose|j: int| 0 <= j < p.len() && #[trigger] p[j] == parsed_bounds(q[k].bounds@)->0;
        assert(bl[j] == p[j]);
    }
}

proof fn lemma_clear_point_uncovered_when(q: Seq<Element>, index: usize, target: Bounds)
    ensures
        0 <= target.left < target.right && 0 <= target.top < target.bottom ==> (clear_point(
            target,
            blockers_of(q, index, target),
            0,
        ) matches Some(p) ==> inside(target, p.0, p.1) && !covered_by_later(q, index, p.0, p.1)),
{
    if 0 <= target.left < target.right && 0 <= target.top < target.bottom {
        lemma_clear_point_uncovered(q, index, target);
    }
}

/// The point the clear-point search finds for a target with non-negative
/// sides of positive length lies inside the target and under no later
/// element: no element with a higher index has bounds that contain it.
pub proof fn lemma_clear_point_uncovered(q: Seq<Element>, index: usize, target: Bounds)
    requires
        0 <= target.left < target.right,
        0 <= target.top < target.bottom,
    ensures
        clear_point(target, blockers_of(q, index, target), 0) matches Some(p) ==> inside(
            target,
            p.0,
            p.1,
        ) && !covered_by_later(q, index, p.0, p.1),
{
    let bl = blockers_of(q, index, target);
    lemma_clear_point_within(target, bl, 0);
    lemma_clear_point_unblocked(target, bl, 0);
    if let Some(p) = clear_point(target, bl, 0) {
        assert forall|k: int| 0 <= k < q.len() implies !#[trigger] later_holds(
            q[k],
            index,
            p.0,
            p.1,
        ) by {
            if later_holds(q[k], index, p.0, p.1) {
                let b = parsed_bounds(q[k].bounds@)->0;
                assert(overlap(target, b));
                lemma_blocker_listed(q, index, target, k);
                let j = choose|j: int| 0 <= j < bl.len() && #[trigger] bl[j] == b;
                assert(inside(bl[j], p.0, p.1));
            }
        }
    }
}

impl UIState {
    pub fn new(
        elements: Vec<Element>,
        formatted_text: String,
        focused_text: String,
        phone_state: PhoneState,
        screen: ScreenDimensions,
        use_normalized: bool,
    ) -> (r: Self)
        ensures
            r.elements == elements,
            r.formatted_text == formatted_text,
            r.focused_text == focused_text,
            r.phone_state == phone_state,
            r.screen == screen,
            r.use_normalized == use_normalized,
    {
        UIState { elements, formatted_text, focused_text, phone_state, screen, use_normalized }
    }

    /// Finds an element by index (depth-first tree search).
    pub fn get_element(&self, index: usize) -> (r: Option<&Element>)
        ensures
            match element_at(self.elements@, index) {
                Some(e) => r == Some(&e),
                None => r is None,
            },
    {
        find_by_index(&self.elements, index)
    }

    /// The center of an element, by index.
    pub fn get_element_coords(&self, index: usize) -> (r: Result<(i32, i32)>)
        ensures
            match element_at(self.elements@, index) {
                None => r == Err::<(i32, i32), DroidrunError>(DroidrunError::ElementNotFound(index)),
                Some(e) => if e.bounds@.len() == 0 {
                    r == Err::<(i32, i32), DroidrunError>(DroidrunError::ElementNoBounds(index))
                } else {
                    match parsed_bounds(e.bounds@) {
                        None => r matches Err(DroidrunError::InvalidBounds(m)) && m@ == e.bounds@,
                        Some(b) => r matches Ok(p) && p.0 == center_of(b).0 && p.1 == center_of(
                            b,
                        ).1,
                    }
                },
            },
    {
        let el = match self.get_element(index) {
            Some(el) => el,
            None => {
                return Err(DroidrunError::ElementNotFound(index));
            },
        };
        if el.bounds.as_str().is_empty() {
            return Err(DroidrunError::ElementNoBounds(index));
        }
        let bounds = match Bounds::from_str(el.bounds.as_str()) {
            Some(b) => b,
            None => {
                return Err(DroidrunError::InvalidBounds(el.bounds.clone()));
            },
        };
        Ok(bounds.center())
    }

    /// Text, class name and bounds of an element, by index.
    pub fn get_element_info(&self, index: usize) -> (r: Option<ElementInfo>)
        ensures
            match element_at(self.elements@, index) {
                None => r is None,
                Some(e) => r matches Some(info) && info.text == e.text && info.class_name
                    == e.class_name && info.bounds == e.bounds,
            },
    {
        let el = self.get_element(index)?;
        Some(
            ElementInfo {
                text: el.text.clone(),
                class_name: el.class_name.clone(),
                bounds: el.bounds.clone(),
            },
        )
    }

    /// A tap point inside an element that no later (higher-index) element
    /// covers.
    pub fn get_clear_point(&self, index: usize) -> (r: Result<(i32, i32)>)
        ensures
            match element_at(self.elements@, index) {
                None => r == Err::<(i32, i32), DroidrunError>(DroidrunError::ElementNotFound(index)),
                Some(e) => if e.bounds@.len() == 0 {
                    r == Err::<(i32, i32), DroidrunError>(DroidrunError::ElementNoBounds(index))
                } else {
                    match parsed_bounds(e.bounds@) {
                        None => r matches Err(DroidrunError::InvalidBounds(m)) && m@ == e.bounds@,
                        Some(t) => match clear_point(
                            t,
                            blockers_of(preorder(self.elements@), index, t),
                            0,
                        ) {
                            Some(p) => r matches Ok(q) && q.0 == p.0 && q.1 == p.1,
                            None => r == Err::<(i32, i32), DroidrunError>(
                                DroidrunError::ElementObscured(index),
                            ),
                        },
                    }
                },
            },
            r matches Ok(p) ==> (element_at(self.elements@, index) matches Some(e) && (
            parsed_bounds(e.bounds@) matches Some(t) && (0 <= t.left < t.right && 0 <= t.top
                < t.bottom ==> inside(t, p.0 as int, p.1 as int) && !covered_by_later(
                preorder(self.elements@),
                index,
                p.0 as int,
                p.1 as int,
            )))),
    {
        let el = match self.get_element(index) {
            Some(el) => el,
            None => {
                return Err(DroidrunError::ElementNotFound(index));
            },
        };
        if el.bounds.as_str().is_empty() {
            return Err(DroidrunError::ElementNoBounds(index));
        }
        let target = match Bounds::from_str(el.bounds.as_str()) {
            Some(b) => b,
            None => {
                return Err(DroidrunError::InvalidBounds(el.bounds.clone()));
            },
        };
        let all = collect_all(&self.elements);
        let ghost q = deref_all(all@);
        let mut blockers: Vec<Bounds> = Vec::new();
        let mut i: usize = 0;
        while i < all.len()
            invariant
                q == deref_all(all@),
                i <= all.len(),
                blockers@ == blockers_of(q.take(i as int), index, target),
            decreases all.len() - i,
        {
            assert(q.take(i + 1).drop_last() == q.take(i as int));
            let e = all[i];
            if e.index > index && !e.bounds.as_str().is_empty() {
                match Bounds::from_str(e.bounds.as_str()) {
                    Some(b) => {
                        if target.overlaps(&b) {
                            blockers.push(b);
                        }
                    },
                    None => {},
                }
            }
            i = i + 1;
        }
        assert(q.take(all.len() as int) == q);
        proof {
            lemma_clear_point_uncovered_when(q, index, target);
        }
        match find_clear_point(&target, blockers.as_slice()) {
            Some(p) => Ok(p),
            None => Err(DroidrunError::ElementObscured(index)),
        }
    }

    /// Converts a point to absolute pixels when normalized mode is active.
    pub fn convert_point(&self, x: i32, y: i32) -> (r: Result<(i32, i32)>)
        requires
            self.use_normalized && self.screen.width > 0 && self.screen.height > 0
                ==> fits_product(x as int, self.screen.width as int) && fits_product(
                y as int,
                self.screen.height as int,
            ),
        ensures
            !self.use_normalized ==> r == Ok::<(i32, i32), DroidrunError>((x, y)),
            self.use_normalized && (self.screen.width <= 0 || self.screen.height <= 0) ==> r
                == Err::<(i32, i32), DroidrunError>(DroidrunError::NoDimensions),
            self.use_normalized && self.screen.width > 0 && self.screen.height > 0 ==> (r matches Ok(
                p,
            ) && p.0 == absolute_of(x as int, self.screen.width as int) && p.1 == absolute_of(
                y as int,
                self.screen.height as int,
            )),
    {
        if self.use_normalized {
            to_absolute(x, y, self.screen.width, self.screen.height)
        } else {
            Ok((x, y))
        }
    }

    /// Every element index, in ascending order.
    pub fn all_indices(&self) -> (r: Vec<usize>)
        ensures
            r@ == index_list(preorder(self.elements@)).sort_by(index_leq()),
    {
        collect_indices(&self.elements)
    }
}

} // verus!
