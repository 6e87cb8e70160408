//! Geometry of UI element bounds and the search for an unobstructed tap point.
use vstd::prelude::*;

use crate::text::{
    chars_of, int_to_dec, lemma_int_to_dec_parses, lemma_split_after_sep, lemma_split_plain,
    parse_i32, parse_signed, push_int, push_str, split_chars, split_on, string_of, trim,
    trim_chars, views,
};

verus! {

/// Integer division rounding toward zero (Rust's `/` on signed integers).
pub open spec fn tdiv(a: int, b: int) -> int {
    if a >= 0 {
        a / b
    } else {
        -((-a) / b)
    }
}

/// A rectangle defined by (left, top, right, bottom).
#[derive(Debug, Clone, Copy, PartialEq, Eq, Structural)]
pub struct Bounds {
    pub left: i32,
    pub top: i32,
    pub right: i32,
    pub bottom: i32,
}

/// The integers read from the comma-separated parts of `s`; parts that are not
/// an `i32` (after trimming) are skipped.
pub open spec fn int_parts(parts: Seq<Seq<char>>) -> Seq<int>
    decreases parts.len(),
{
    if parts.len() == 0 {
        seq![]
    } else {
        let p = int_parts(parts.drop_last());
        match parse_signed(trim(parts.last()), i32::MIN as int, i32::MAX as int) {
            Some(v) => p.push(v),
            None => p,
        }
    }
}

/// The integer values found in a `left,top,right,bottom` text.
pub open spec fn bounds_values(s: Seq<char>) -> Seq<int> {
    int_parts(split_on(s, ','))
}

/// The rectangle read from a `left,top,right,bottom` text: the parts that
/// read as `i32` (after trimming) must be exactly four.
pub open spec fn parsed_bounds(s: Seq<char>) -> Option<Bounds> {
    let v = bounds_values(s);
    if v.len() == 4 {
        Some(Bounds { left: v[0] as i32, top: v[1] as i32, right: v[2] as i32, bottom: v[3] as i32 })
    } else {
        None
    }
}

/// The center of a rectangle.
pub open spec fn center_of(b: Bounds) -> (int, int) {
    (tdiv(b.left + b.right, 2), tdiv(b.top + b.bottom, 2))
}

/// Width times height, in exact arithmetic.
pub open spec fn area_of(b: Bounds) -> int {
    (b.right - b.left) * (b.bottom - b.top)
}

/// Whether `(x, y)` lies in the half-open rectangle.
pub open spec fn inside(b: Bounds, x: int, y: int) -> bool {
    x >= b.left && x < b.right && y >= b.top && y < b.bottom
}

/// Whether the rectangles share interior area.
pub open spec fn overlap(a: Bounds, b: Bounds) -> bool {
    !(a.right <= b.left || b.right <= a.left || a.bottom <= b.top || b.bottom <= a.top)
}

/// The `left,top,right,bottom` text of a rectangle.
pub open spec fn bounds_text(b: Bounds) -> Seq<char> {
    int_to_dec(b.left as int) + ","@ + int_to_dec(b.top as int) + ","@ + int_to_dec(
        b.right as int,
    ) + ","@ + int_to_dec(b.bottom as int)
}

pub proof fn lemma_tdiv2_between(a: int, b: int)
    requires
        a <= b,
    ensures
        a <= tdiv(a + b, 2) <= b,
{
}

pub proof fn lemma_tdiv2_i32(a: i32, b: i32)
    ensures
        i32::MIN <= tdiv(a + b, 2) <= i32::MAX,
{
    if a <= b {
        lemma_tdiv2_between(a as int, b as int);
    } else {
        lemma_tdiv2_between(b as int, a as int);
    }
}

impl Bounds {
    pub fn new(left: i32, top: i32, right: i32, bottom: i32) -> (r: Bounds)
        ensures
            r == (Bounds { left, top, right, bottom }),
    {
        Bounds { left, top, right, bottom }
    }

    /// Parses `left,top,right,bottom`: the parts that read as `i32` (after
    /// trimming) must be exactly four.
    pub fn from_str(s: &str) -> (r: Option<Bounds>)
        ensures
            r == parsed_bounds(s@),
    {
        let c = chars_of(s);
        let parts = split_chars(c.as_slice(), ',');
        let ghost pv = views(parts@);
        let mut vals: Vec<i32> = Vec::new();
        let mut i: usize = 0;
        while i < parts.len()
            invariant
                i <= parts@.len(),
                pv == views(parts@),
                vals@.len() == int_parts(pv.take(i as int)).len(),
                forall|k: int|
                    0 <= k < vals@.len() ==> vals@[k] as int == #[trigger] int_parts(
                        pv.take(i as int),
                    )[k],
            decreases parts@.len() - i,
        {
            assert(pv.take(i + 1).drop_last() == pv.take(i as int));
            assert(pv.take(i + 1).last() == parts@[i as int]@);
            let t = trim_chars(parts[i].as_slice());
            match parse_i32(t.as_slice()) {
                Some(v) => {
                    vals.push(v);
                },
                None => {},
            }
            i = i + 1;
        }
        assert(pv.take(parts@.len() as int) == pv);
        if vals.len() == 4 {
            Some(Bounds::new(vals[0], vals[1], vals[2], vals[3]))
        } else {
            None
        }
    }

    /// Center point of the bounds.
    pub fn center(&self) -> (r: (i32, i32))
        ensures
            r.0 == center_of(*self).0,
            r.1 == center_of(*self).1,
    {
        proof {
            lemma_tdiv2_i32(self.left, self.right);
            lemma_tdiv2_i32(self.top, self.bottom);
        }
        let cx = (self.left as i64 + self.right as i64) / 2;
        let cy = (self.top as i64 + self.bottom as i64) / 2;
        (cx as i32, cy as i32)
    }

    /// Width of the bounds.
    pub fn width(&self) -> (r: i32)
        requires
            i32::MIN <= self.right - self.left <= i32::MAX,
        ensures
            r == self.right - self.left,
    {
        self.right - self.left
    }

    /// Height of the bounds.
    pub fn height(&self) -> (r: i32)
        requires
            i32::MIN <= self.bottom - self.top <= i32::MAX,
        ensures
            r == self.bottom - self.top,
    {
        self.bottom - self.top
    }

    /// Area of the bounds.
    pub fn area(&self) -> (r: i32)
        requires
            i32::MIN <= self.right - self.left <= i32::MAX,
            i32::MIN <= self.bottom - self.top <= i32::MAX,
            i32::MIN <= area_of(*self) <= i32::MAX,
        ensures
            r == area_of(*self),
    {
        self.width() * self.height()
    }

    /// Area in wide arithmetic, for any rectangle.
    pub fn area_wide(&self) -> (r: i128)
        ensures
            r == area_of(*self),
    {
        let w = self.right as i128 - self.left as i128;
        let h = self.bottom as i128 - self.top as i128;
        assert(-0x1_0000_0000 < w < 0x1_0000_0000);
        assert(-0x1_0000_0000 < h < 0x1_0000_0000);
        assert(-0x1_0000_0000_0000_0000 <= w * h <= 0x1_0000_0000_0000_0000) by (nonlinear_arith)
            requires
                -0x1_0000_0000 < w < 0x1_0000_0000,
                -0x1_0000_0000 < h < 0x1_0000_0000,
        ;
        w * h
    }

    /// Whether the two rectangles overlap.
    pub fn overlaps(&self, other: &Bounds) -> (b: bool)
        ensures
            b == overlap(*self, *other),
    {
        !(self.right <= other.left || other.right <= self.left || self.bottom <= other.top
            || other.bottom <= self.top)
    }

    /// Whether a point is inside the bounds (left/top inclusive, right/bottom exclusive).
    pub fn contains_point(&self, x: i32, y: i32) -> (b: bool)
        ensures
            b == inside(*self, x as int, y as int),
    {
        x >= self.left && x < self.right && y >= self.top && y < self.bottom
    }

    /// `left,top,right,bottom`.
    pub fn to_string(&self) -> (r: String)
        ensures
            r@ == bounds_text(*self),
    {
        let mut v: Vec<char> = Vec::new();
        push_int(&mut v, self.left as i64);
        push_str(&mut v, ",");
        push_int(&mut v, self.top as i64);
        push_str(&mut v, ",");
        push_int(&mut v, self.right as i64);
        push_str(&mut v, ",");
        push_int(&mut v, self.bottom as i64);
        string_of(v.as_slice())
    }
}

/// Some blocker contains the point.
pub open spec fn blocked(blockers: Seq<Bounds>, x: int, y: int) -> bool {
    exists|i: int| 0 <= i < blockers.len() && inside(#[trigger] blockers[i], x, y)
}

/// The four quadrants of `b` around its center: top-left, top-right,
/// bottom-left, bottom-right.
pub open spec fn quadrant(b: Bounds, k: int) -> Bounds {
    let (cx, cy) = center_of(b);
    if k == 0 {
        Bounds { left: b.left, top: b.top, right: cx as i32, bottom: cy as i32 }
    } else if k == 1 {
        Bounds { left: cx as i32, top: b.top, right: b.right, bottom: cy as i32 }
    } else if k == 2 {
        Bounds { left: b.left, top: cy as i32, right: cx as i32, bottom: b.bottom }
    } else {
        Bounds { left: cx as i32, top: cy as i32, right: b.right, bottom: b.bottom }
    }
}

/// Keeps the point found in a quadrant of area `a` when that area is positive
/// and larger than the best so far.
pub open spec fn pick(best: (Option<(int, int)>, int), a: int, found: Option<(int, int)>) -> (
    Option<(int, int)>,
    int,
) {
    if a <= 0 {
        best
    } else {
        match found {
            Some(p) => if a > best.1 {
                (Some(p), a)
            } else {
                best
            },
            None => best,
        }
    }
}

/// The tap point searched for in `b` at recursion depth `depth`: the center
/// when no blocker contains it; otherwise, unless `depth > 4` or the area is
/// below 100, the point found in the largest quadrant that has one.
pub open spec fn clear_point(b: Bounds, blockers: Seq<Bounds>, depth: int) -> Option<(int, int)>
    decreases 5 - depth,
{
    let (cx, cy) = center_of(b);
    if !blocked(blockers, cx, cy) {
        Some((cx, cy))
    } else if depth > 4 || area_of(b) < 100 {
        None
    } else {
        let b0 = pick((None, 0), area_of(quadrant(b, 0)), clear_point(quadrant(b, 0), blockers, depth + 1));
        let b1 = pick(b0, area_of(quadrant(b, 1)), clear_point(quadrant(b, 1), blockers, depth + 1));
        let b2 = pick(b1, area_of(quadrant(b, 2)), clear_point(quadrant(b, 2), blockers, depth + 1));
        let b3 = pick(b2, area_of(quadrant(b, 3)), clear_point(quadrant(b, 3), blockers, depth + 1));
        b3.0
    }
}

/// Whether some blocker contains `(x, y)`.
fn any_contains(blockers: &[Bounds], x: i32, y: i32) -> (r: bool)
    ensures
        r == blocked(blockers@, x as int, y as int),
{
    let mut i: usize = 0;
    while i < blockers.len()
        invariant
            i <= blockers@.len(),
            forall|j: int| 0 <= j < i ==> !inside(#[trigger] blockers@[j], x as int, y as int),
        decreases blockers@.len() - i,
    {
        if blockers[i].contains_point(x, y) {
            return true;
        }
        i = i + 1;
    }
    false
}

fn quadrant_exec(b: &Bounds, k: u8) -> (q: Bounds)
    requires
        k < 4,
    ensures
        q == quadrant(*b, k as int),
{
    let (cx, cy) = b.center();
    if k == 0 {
        Bounds::new(b.left, b.top, cx, cy)
    } else if k == 1 {
        Bounds::new(cx, b.top, b.right, cy)
    } else if k == 2 {
        Bounds::new(b.left, cy, cx, b.bottom)
    } else {
        Bounds::new(cx, cy, b.right, b.bottom)
    }
}

fn find_clear_point_at(b: &Bounds, blockers: &[Bounds], depth: u32) -> (r: Option<(i32, i32)>)
    requires
        depth <= 5,
    ensures
        match clear_point(*b, blockers@, depth as int) {
            Some(p) => r matches Some(q) && q.0 == p.0 && q.1 == p.1,
            None => r is None,
        },
    decreases 5 - depth,
{
    let (cx, cy) = b.center();
    if !any_contains(blockers, cx, cy) {
        return Some((cx, cy));
    }
    if depth > 4 || b.area_wide() < 100 {
        return None;
    }
    let mut best: Option<(i32, i32)> = None;
    let mut best_area: i128 = 0;
    let ghost mut acc: (Option<(int, int)>, int) = (None, 0);
    let mut k: u8 = 0;
    while k < 4
        invariant
            k <= 4,
            depth <= 4,
            best_area == acc.1,
            match acc.0 {
                Some(p) => best matches Some(q) && q.0 == p.0 && q.1 == p.1,
                None => best is None,
            },
            acc == if k == 0 {
                (None::<(int, int)>, 0int)
            } else if k == 1 {
                pick((None, 0), area_of(quadrant(*b, 0)), clear_point(quadrant(*b, 0), blockers@, depth + 1))
            } else if k == 2 {
                pick(
                    pick((None, 0), area_of(quadrant(*b, 0)), clear_point(quadrant(*b, 0), blockers@, depth + 1)),
                    area_of(quadrant(*b, 1)),
                    clear_point(quadrant(*b, 1), blockers@, depth + 1),
                )
            } else if k == 3 {
                pick(
                    pick(
                        pick((None, 0), area_of(quadrant(*b, 0)), clear_point(quadrant(*b, 0), blockers@, depth + 1)),
                        area_of(quadrant(*b, 1)),
                        clear_point(quadrant(*b, 1), blockers@, depth + 1),
                    ),
                    area_of(quadrant(*b, 2)),
                    clear_point(quadrant(*b, 2), blockers@, depth + 1),
                )
            } else {
                pick(
                    pick(
                        pick(
                            pick((None, 0), area_of(quadrant(*b, 0)), clear_point(quadrant(*b, 0), blockers@, depth + 1)),
                            area_of(quadrant(*b, 1)),
                            clear_point(quadrant(*b, 1), blockers@, depth + 1),
                        ),
                        area_of(quadrant(*b, 2)),
                        clear_point(quadrant(*b, 2), blockers@, depth + 1),
                    ),
                    area_of(quadrant(*b, 3)),
                    clear_point(quadrant(*b, 3), blockers@, depth + 1),
                )
            },
        decreases 4 - k,
    {
        let q = quadrant_exec(b, k);
        let a = q.area_wide();
        let ghost found = clear_point(quadrant(*b, k as int), blockers@, depth + 1);
        if a > 0 {
            let r = find_clear_point_at(&q, blockers, depth + 1);
            match r {
                Some(p) => {
                    if a > best_area {
                        best = Some(p);
                        best_area = a;
                    }
                },
                None => {},
            }
        }
        proof {
            acc = pick(acc, area_of(quadrant(*b, k as int)), found);
        }
        k = k + 1;
    }
    best
}

/// Finds a tap point within `bounds` that no blocker covers: the center if it
/// is free, else (searching quadrants, at most four levels deep, in areas of
/// at least 100) the point found in the largest quadrant that has one.
pub fn find_clear_point(bounds: &Bounds, blockers: &[Bounds]) -> (r: Option<(i32, i32)>)
    ensures
        match clear_point(*bounds, blockers@, 0) {
            Some(p) => r matches Some(q) && q.0 == p.0 && q.1 == p.1,
            None => r is None,
        },
{
    find_clear_point_at(bounds, blockers, 0)
}

/// A point found by the search is covered by no blocker.
pub proof fn lemma_clear_point_unblocked(b: Bounds, blockers: Seq<Bounds>, depth: int)
    ensures
        clear_point(b, blockers, depth) matches Some(p) ==> !blocked(blockers, p.0, p.1),
    decreases 5 - depth,
{
    let (cx, cy) = center_of(b);
    if blocked(blockers, cx, cy) && !(depth > 4 || area_of(b) < 100) {
        lemma_clear_point_unblocked(quadrant(b, 0), blockers, depth + 1);
        lemma_clear_point_unblocked(quadrant(b, 1), blockers, depth + 1);
        lemma_clear_point_unblocked(quadrant(b, 2), blockers, depth + 1);
        lemma_clear_point_unblocked(quadrant(b, 3), blockers, depth + 1);
    }
}

/// For a rectangle with `left <= right` and `top <= bottom`, a point found by
/// the search lies within it, edges included; and, along a side of positive
/// length that starts at a non-negative coordinate, before the far edge
/// (`x < right`, `y < bottom`; with negative coordinates the center, rounded
/// toward zero, can fall on the far edge).
pub proof fn lemma_clear_point_within(b: Bounds, blockers: Seq<Bounds>, depth: int)
    requires
        b.left <= b.right,
        b.top <= b.bottom,
    ensures
        clear_point(b, blockers, depth) matches Some(p) ==> b.left <= p.0 <= b.right && b.top
            <= p.1 <= b.bottom,
        clear_point(b, blockers, depth) matches Some(p) ==> (0 <= b.left < b.right ==> p.0
            < b.right) && (0 <= b.top < b.bottom ==> p.1 < b.bottom),
    decreases 5 - depth,
{
    let (cx, cy) = center_of(b);
    lemma_tdiv2_between(b.left as int, b.right as int);
    lemma_tdiv2_between(b.top as int, b.bottom as int);
    assert(0 <= b.left < b.right ==> cx < b.right);
    assert(0 <= b.top < b.bottom ==> cy < b.bottom);
    if blocked(blockers, cx, cy) && !(depth > 4 || area_of(b) < 100) {
        lemma_clear_point_within(quadrant(b, 0), blockers, depth + 1);
        lemma_clear_point_within(quadrant(b, 1), blockers, depth + 1);
        lemma_clear_point_within(quadrant(b, 2), blockers, depth + 1);
        lemma_clear_point_within(quadrant(b, 3), blockers, depth + 1);
    }
}

/// When nothing blocks the center, the search answers the center.
pub proof fn lemma_clear_point_free_center(b: Bounds, blockers: Seq<Bounds>)
    requires
        !blocked(blockers, center_of(b).0, center_of(b).1),
    ensures
        clear_point(b, blockers, 0) == Some(center_of(b)),
{
}

/// Overlap is symmetric.
pub proof fn lemma_overlap_symmetric(a: Bounds, b: Bounds)
    ensures
        overlap(a, b) == overlap(b, a),
{
}

/// Reading back the text of a rectangle gives the same rectangle:
/// `Bounds::from_str(&b.to_string()) == Some(b)`.
pub proof fn lemma_bounds_text_roundtrip(b: Bounds)
    ensures
        parsed_bounds(bounds_text(b)) == Some(b),
{
    let lo = i32::MIN as int;
    let hi = i32::MAX as int;
    let d0 = int_to_dec(b.left as int);
    let d1 = int_to_dec(b.top as int);
    let d2 = int_to_dec(b.right as int);
    let d3 = int_to_dec(b.bottom as int);
    lemma_int_to_dec_parses(b.left as int, lo, hi);
    lemma_int_to_dec_parses(b.top as int, lo, hi);
    lemma_int_to_dec_parses(b.right as int, lo, hi);
    lemma_int_to_dec_parses(b.bottom as int, lo, hi);
    lemma_split_plain(d0, ',');
    lemma_split_after_sep(d0, d1, ',');
    lemma_split_after_sep(d0 + seq![','] + d1, d2, ',');
    lemma_split_after_sep(d0 + seq![','] + d1 + seq![','] + d2, d3, ',');
    assert(","@ == seq![',']) by {
        reveal_strlit(",");
    }
    assert(bounds_text(b) == d0 + seq![','] + d1 + seq![','] + d2 + seq![','] + d3);
    let parts = seq![d0, d1, d2, d3];
    assert(split_on(bounds_text(b), ',') =~= parts);
    assert(parts.drop_last() =~= seq![d0, d1, d2]);
    assert(parts.drop_last().drop_last() =~= seq![d0, d1]);
    assert(parts.drop_last().drop_last().drop_last() =~= seq![d0]);
    assert(seq![d0].drop_last() =~= Seq::<Seq<char>>::empty());
    assert(int_parts(Seq::<Seq<char>>::empty()) == Seq::<int>::empty());
    assert(trim(seq![d0].last()) == d0);
    assert(int_parts(seq![d0]) =~= seq![b.left as int]);
    assert(int_parts(seq![d0, d1]) =~= seq![b.left as int, b.top as int]);
    assert(int_parts(seq![d0, d1, d2]) =~= seq![b.left as int, b.top as int, b.right as int]);
    assert(int_parts(parts) =~= seq![
        b.left as int,
        b.top as int,
        b.right as int,
        b.bottom as int,
    ]);
}

} // verus!
