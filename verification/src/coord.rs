//! Conversion between absolute pixels and normalized `[0, 1000]` coordinates.
use vstd::prelude::*;

use crate::error::{DroidrunError, Result};
use crate::geometry::tdiv;
use crate::text::{
    chars_of, int_to_dec, parse_i32, parse_signed, push_int, push_str, split_chars, split_on,
    string_of, trim, trim_chars, views,
};

verus! {

/// Maximum value for normalized coordinates.
pub const NORMALIZED_MAX: i32 = 1000;

/// Whether `v * f` fits in an `i32`.
pub open spec fn fits_product(v: int, f: int) -> bool {
    i32::MIN <= v * f <= i32::MAX
}

/// `[0, 1000]` to pixels on an axis of `size` pixels.
pub open spec fn absolute_of(v: int, size: int) -> int {
    tdiv(v * size, 1000)
}

/// Pixels to `[0, 1000]` on an axis of `size` pixels.
pub open spec fn normalized_of(v: int, size: int) -> int {
    tdiv(v * 1000, size)
}

/// Converts normalized `[0, 1000]` coordinates to absolute pixels.
pub fn to_absolute(x: i32, y: i32, width: i32, height: i32) -> (r: Result<(i32, i32)>)
    requires
        width > 0 && height > 0 ==> fits_product(x as int, width as int) && fits_product(
            y as int,
            height as int,
        ),
    ensures
        width <= 0 || height <= 0 ==> r == Err::<(i32, i32), DroidrunError>(
            DroidrunError::NoDimensions,
        ),
        width > 0 && height > 0 ==> (r matches Ok((ax, ay)) && ax == absolute_of(
            x as int,
            width as int,
        ) && ay == absolute_of(y as int, height as int)),
{
    if width <= 0 || height <= 0 {
        return Err(DroidrunError::NoDimensions);
    }
    Ok((x * width / NORMALIZED_MAX, y * height / NORMALIZED_MAX))
}

/// Converts absolute pixels to normalized `[0, 1000]` coordinates.
pub fn to_normalized(x: i32, y: i32, width: i32, height: i32) -> (r: Result<(i32, i32)>)
    requires
        width > 0 && height > 0 ==> fits_product(x as int, 1000) && fits_product(y as int, 1000),
    ensures
        width <= 0 || height <= 0 ==> r == Err::<(i32, i32), DroidrunError>(
            DroidrunError::NoDimensions,
        ),
        width > 0 && height > 0 ==> (r matches Ok((nx, ny)) && nx == normalized_of(
            x as int,
            width as int,
        ) && ny == normalized_of(y as int, height as int)),
{
    if width <= 0 || height <= 0 {
        return Err(DroidrunError::NoDimensions);
    }
    Ok((x * NORMALIZED_MAX / width, y * NORMALIZED_MAX / height))
}

/// The `i32` values of the trimmed parts, or `None` when one of them is not
/// an `i32`.
pub open spec fn all_ints(parts: Seq<Seq<char>>) -> Option<Seq<int>>
    decreases parts.len(),
{
    if parts.len() == 0 {
        Some(seq![])
    } else {
        match all_ints(parts.drop_last()) {
            Some(p) => match parse_signed(trim(parts.last()), i32::MIN as int, i32::MAX as int) {
                Some(v) => Some(p.push(v)),
                None => None,
            },
            None => None,
        }
    }
}

/// The four numbers of a `left,top,right,bottom` text, when every part is an
/// `i32` and there are exactly four.
pub open spec fn four_ints(bounds: Seq<char>) -> Option<Seq<int>> {
    match all_ints(split_on(bounds, ',')) {
        Some(v) => if v.len() == 4 {
            Some(v)
        } else {
            None
        },
        None => None,
    }
}

/// Whether every number of the text can be scaled by 1000 within `i32`.
pub open spec fn scalable_bounds(bounds: Seq<char>) -> bool {
    four_ints(bounds) matches Some(v) ==> forall|k: int| 0 <= k < 4 ==> fits_product(v[k], 1000)
}

/// `a,b,c,d` for four numbers.
pub open spec fn join4(v: Seq<int>) -> Seq<char> {
    int_to_dec(v[0]) + ","@ + int_to_dec(v[1]) + ","@ + int_to_dec(v[2]) + ","@ + int_to_dec(v[3])
}

/// The normalized text of four bounds numbers.
pub open spec fn normalized_text(v: Seq<int>, width: int, height: int) -> Seq<char> {
    join4(
        seq![
            normalized_of(v[0], width),
            normalized_of(v[1], height),
            normalized_of(v[2], width),
            normalized_of(v[3], height),
        ],
    )
}

/// Converts a `left,top,right,bottom` bounds text to normalized coordinates.
pub fn bounds_to_normalized(bounds: &str, width: i32, height: i32) -> (r: Result<String>)
    requires
        width > 0 && height > 0 ==> scalable_bounds(bounds@),
    ensures
        four_ints(bounds@) is None ==> (r matches Err(DroidrunError::InvalidBounds(m)) && m@
            == bounds@),
        four_ints(bounds@) is Some && (width <= 0 || height <= 0) ==> r == Err::<
            String,
            DroidrunError,
        >(DroidrunError::NoDimensions),
        four_ints(bounds@) is Some && width > 0 && height > 0 ==> (r matches Ok(s) && s@
            == normalized_text(four_ints(bounds@)->0, width as int, height as int)),
{
    let c = chars_of(bounds);
    let parts = split_chars(c.as_slice(), ',');
    let ghost pv = views(parts@);
    let mut vals: Vec<i32> = Vec::new();
    let mut i: usize = 0;
    while i < parts.len()
        invariant
            i <= parts@.len(),
            pv == views(parts@),
            pv == split_on(bounds@, ','),
            all_ints(pv.take(i as int)) matches Some(p) && p.len() == vals@.len() && forall|k: int|
                0 <= k < p.len() ==> #[trigger] p[k] == vals@[k] as int,
        decreases parts@.len() - i,
    {
        assert(pv.take(i + 1).drop_last() == pv.take(i as int));
        assert(pv.take(i + 1).last() == parts@[i as int]@);
        let t = trim_chars(parts[i].as_slice());
        match parse_i32(t.as_slice()) {
            Some(v) => {
                vals.push(v);
            },
            None => {
                assert(all_ints(pv.take(i + 1)) is None);
                proof {
                    lemma_all_ints_prefix_none(pv, i as int + 1);
                }
                assert(pv.take(pv.len() as int) == pv);
                return Err(DroidrunError::InvalidBounds(bounds.to_owned()));
            },
        }
        i = i + 1;
    }
    assert(pv.take(parts@.len() as int) == pv);
    if vals.len() != 4 {
        return Err(DroidrunError::InvalidBounds(bounds.to_owned()));
    }
    proof {
        let p = all_ints(pv)->0;
        assert(four_ints(bounds@) == Some(p));
        assert(p[0] == vals@[0] as int && p[1] == vals@[1] as int);
        assert(p[2] == vals@[2] as int && p[3] == vals@[3] as int);
    }
    let (nl, nt) = to_normalized(vals[0], vals[1], width, height)?;
    let (nr, nb) = to_normalized(vals[2], vals[3], width, height)?;
    let mut out: Vec<char> = Vec::new();
    push_int(&mut out, nl as i64);
    push_str(&mut out, ",");
    push_int(&mut out, nt as i64);
    push_str(&mut out, ",");
    push_int(&mut out, nr as i64);
    push_str(&mut out, ",");
    push_int(&mut out, nb as i64);
    Ok(string_of(out.as_slice()))
}

/// Whether every number of a `left,top,right,bottom` text can be scaled by
/// 1000 within `i32` (true for a text that is not four `i32`s).
pub fn bounds_scalable(bounds: &str) -> (b: bool)
    ensures
        b == scalable_bounds(bounds@),
{
    let c = chars_of(bounds);
    let parts = split_chars(c.as_slice(), ',');
    let ghost pv = views(parts@);
    let mut vals: Vec<i32> = Vec::new();
    let mut i: usize = 0;
    while i < parts.len()
        invariant
            i <= parts@.len(),
            pv == views(parts@),
            pv == split_on(bounds@, ','),
            all_ints(pv.take(i as int)) matches Some(p) && p.len() == vals@.len() && forall|k: int|
                0 <= k < p.len() ==> #[trigger] p[k] == vals@[k] as int,
        decreases parts@.len() - i,
    {
        assert(pv.take(i + 1).drop_last() == pv.take(i as int));
        assert(pv.take(i + 1).last() == parts@[i as int]@);
        let t = trim_chars(parts[i].as_slice());
        match parse_i32(t.as_slice()) {
            Some(v) => {
                vals.push(v);
            },
            None => {
                assert(all_ints(pv.take(i + 1)) is None);
                proof {
                    lemma_all_ints_prefix_none(pv, i as int + 1);
                }
                assert(pv.take(pv.len() as int) == pv);
                return true;
            },
        }
        i = i + 1;
    }
    assert(pv.take(parts@.len() as int) == pv);
    if vals.len() != 4 {
        return true;
    }
    let ghost p = all_ints(pv)->0;
    assert(four_ints(bounds@) == Some(p));
    let mut k: usize = 0;
    while k < 4
        invariant
            k <= 4,
            vals@.len() == 4,
            p.len() == 4,
            four_ints(bounds@) == Some(p),
            forall|j: int| 0 <= j < 4 ==> #[trigger] p[j] == vals@[j] as int,
            forall|j: int| 0 <= j < k ==> fits_product(#[trigger] p[j], 1000),
        decreases 4 - k,
    {
        let v = vals[k] as i64 * 1000;
        if v < i32::MIN as i64 || v > i32::MAX as i64 {
            assert(!fits_product(p[k as int], 1000));
            return false;
        }
        k = k + 1;
    }
    true
}

/// Once a part fails to read, every longer prefix fails too.
proof fn lemma_all_ints_prefix_none(pv: Seq<Seq<char>>, n: int)
    requires
        0 <= n <= pv.len(),
        all_ints(pv.take(n)) is None,
    ensures
        all_ints(pv) is None,
    decreases pv.len() - n,
{
    if n < pv.len() {
        assert(pv.take(n + 1).drop_last() == pv.take(n));
        lemma_all_ints_prefix_none(pv, n + 1);
    } else {
        assert(pv.take(n) == pv);
    }
}

/// A normalized coordinate in `[0, 1000]` lands on the screen: within
/// `[0, size]` pixels.
pub proof fn lemma_absolute_on_screen(v: int, size: int)
    requires
        0 <= v <= 1000,
        size > 0,
    ensures
        0 <= absolute_of(v, size) <= size,
{
    assert(0 <= v * size <= 1000 * size) by (nonlinear_arith)
        requires
            0 <= v <= 1000,
            size > 0,
    ;
    assert((v * size) / 1000 <= (1000 * size) / 1000) by (nonlinear_arith)
        requires
            0 <= v * size <= 1000 * size,
    ;
}

/// A pixel coordinate on the screen, `[0, size]`, normalizes into
/// `[0, 1000]`.
pub proof fn lemma_normalized_in_range(x: int, size: int)
    requires
        0 <= x <= size,
        size > 0,
    ensures
        0 <= normalized_of(x, size) <= 1000,
{
    assert(0 <= x * 1000 <= size * 1000) by (nonlinear_arith)
        requires
            0 <= x <= size,
    ;
    assert((x * 1000) / size <= (size * 1000) / size) by (nonlinear_arith)
        requires
            0 <= x * 1000 <= size * 1000,
            size > 0,
    ;
    assert((size * 1000) / size == 1000) by (nonlinear_arith)
        requires
            size > 0,
    ;
}

} // verus!
