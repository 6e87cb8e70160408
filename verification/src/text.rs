//! Character-sequence utilities with the semantics of Rust's `str` methods
//! (`trim`, `lines`, `split`, `split_whitespace`, `find`, `rfind`, `parse`),
//! stated over `Seq<char>` and implemented over `Vec<char>`.
use vstd::prelude::*;

verus! {

// ---- whitespace & trimming ----

/// `char::is_whitespace`: the Unicode `White_Space` property.
pub open spec fn is_ws(c: char) -> bool {
    let u = c as u32;
    ||| 9 <= u <= 13
    ||| u == 32
    ||| u == 0x85
    ||| u == 0xA0
    ||| u == 0x1680
    ||| 0x2000 <= u <= 0x200A
    ||| u == 0x2028
    ||| u == 0x2029
    ||| u == 0x202F
    ||| u == 0x205F
    ||| u == 0x3000
}

pub fn is_whitespace(c: char) -> (b: bool)
    ensures
        b == is_ws(c),
{
    let u = c as u32;
    (9 <= u && u <= 13) || u == 32 || u == 0x85 || u == 0xA0 || u == 0x1680 || (0x2000 <= u
        && u <= 0x200A) || u == 0x2028 || u == 0x2029 || u == 0x202F || u == 0x205F || u
        == 0x3000
}

/// `str::trim_start`.
pub open spec fn trim_start(s: Seq<char>) -> Seq<char>
    decreases s.len(),
{
    if s.len() > 0 && is_ws(s[0]) {
        trim_start(s.drop_first())
    } else {
        s
    }
}

/// `str::trim_end`.
pub open spec fn trim_end(s: Seq<char>) -> Seq<char>
    decreases s.len(),
{
    if s.len() > 0 && is_ws(s.last()) {
        trim_end(s.drop_last())
    } else {
        s
    }
}

/// `str::trim`.
pub open spec fn trim(s: Seq<char>) -> Seq<char> {
    trim_end(trim_start(s))
}

/// A copy of `s[from..to]`.
pub fn copy_range(s: &[char], from: usize, to: usize) -> (r: Vec<char>)
    requires
        from <= to <= s@.len(),
    ensures
        r@ == s@.subrange(from as int, to as int),
{
    let mut r: Vec<char> = Vec::new();
    let mut i = from;
    while i < to
        invariant
            from <= i <= to <= s@.len(),
            r@ == s@.subrange(from as int, i as int),
        decreases to - i,
    {
        r.push(s[i]);
        i = i + 1;
    }
    r
}

/// Index of the first non-whitespace character (or `s.len()`).
pub fn trim_start_index(s: &[char]) -> (i: usize)
    ensures
        i <= s@.len(),
        trim_start(s@) == s@.subrange(i as int, s@.len() as int),
{
    let n = s.len();
    let mut i: usize = 0;
    assert(s@.subrange(0, n as int) == s@);
    while i < n && is_whitespace(s[i])
        invariant
            i <= n == s@.len(),
            trim_start(s@) == trim_start(s@.subrange(i as int, n as int)),
        decreases n - i,
    {
        assert(s@.subrange(i as int, n as int).drop_first() == s@.subrange(i + 1, n as int));
        i = i + 1;
    }
    i
}

/// `str::trim`, over characters.
pub fn trim_chars(s: &[char]) -> (r: Vec<char>)
    ensures
        r@ == trim(s@),
{
    let n = s.len();
    let i = trim_start_index(s);
    let mut j = n;
    while j > i && is_whitespace(s[j - 1])
        invariant
            i <= j <= n == s@.len(),
            trim(s@) == trim_end(s@.subrange(i as int, j as int)),
        decreases j,
    {
        assert(s@.subrange(i as int, j as int).drop_last() == s@.subrange(i as int, j - 1));
        j = j - 1;
    }
    copy_range(s, i, j)
}

// ---- splitting ----

/// `str::split(sep)` for a single-character separator: always at least one piece.
pub open spec fn split_on(s: Seq<char>, sep: char) -> Seq<Seq<char>>
    decreases s.len(),
{
    if s.len() == 0 {
        seq![Seq::<char>::empty()]
    } else {
        let p = split_on(s.drop_last(), sep);
        if s.last() == sep {
            p.push(Seq::<char>::empty())
        } else {
            p.update(p.len() - 1, p.last().push(s.last()))
        }
    }
}

pub proof fn lemma_split_on_nonempty(s: Seq<char>, sep: char)
    ensures
        split_on(s, sep).len() >= 1,
    decreases s.len(),
{
    if s.len() > 0 {
        lemma_split_on_nonempty(s.drop_last(), sep);
    }
}

/// The views of a sequence of character vectors.
pub open spec fn views(v: Seq<Vec<char>>) -> Seq<Seq<char>> {
    v.map_values(|x: Vec<char>| x@)
}

/// `str::split(sep)` for a single-character separator.
pub fn split_chars(s: &[char], sep: char) -> (r: Vec<Vec<char>>)
    ensures
        views(r@) == split_on(s@, sep),
{
    let n = s.len();
    let mut pieces: Vec<Vec<char>> = Vec::new();
    let mut cur: Vec<char> = Vec::new();
    let mut i: usize = 0;
    assert(views(pieces@).push(cur@) =~= split_on(s@.take(0), sep));
    while i < n
        invariant
            i <= n == s@.len(),
            views(pieces@).push(cur@) == split_on(s@.take(i as int), sep),
        decreases n - i,
    {
        let c = s[i];
        assert(s@.take(i + 1).drop_last() == s@.take(i as int));
        assert(s@.take(i + 1).last() == c);
        proof {
            lemma_split_on_nonempty(s@.take(i as int), sep);
        }
        if c == sep {
            let done = cur;
            pieces.push(done);
            cur = Vec::new();
            assert(views(pieces@).push(cur@) =~= split_on(s@.take(i + 1), sep));
        } else {
            cur.push(c);
            assert(views(pieces@).push(cur@) =~= split_on(s@.take(i + 1), sep));
        }
        i = i + 1;
    }
    assert(s@.take(n as int) == s@);
    pieces.push(cur);
    assert(views(pieces@) =~= split_on(s@, sep));
    pieces
}

/// Removes one trailing carriage return.
pub open spec fn strip_cr(l: Seq<char>) -> Seq<char> {
    if l.len() > 0 && l.last() == '\r' {
        l.drop_last()
    } else {
        l
    }
}

/// `str::lines`: split at `\n`, with a `\r` just before a `\n` removed
/// from the line it ends; the empty piece after a final `\n` is dropped, and
/// a last line that no `\n` ends is kept whole (a `\r` there stays).
pub open spec fn lines(s: Seq<char>) -> Seq<Seq<char>> {
    let p = split_on(s, '\n');
    let ended = p.drop_last().map_values(|l: Seq<char>| strip_cr(l));
    if s.len() == 0 || s.last() == '\n' {
        ended
    } else {
        ended.push(p.last())
    }
}

/// `str::lines`, over characters.
pub fn lines_of(s: &[char]) -> (r: Vec<Vec<char>>)
    ensures
        views(r@) == lines(s@),
{
    let mut pieces = split_chars(s, '\n');
    proof {
        lemma_split_on_nonempty(s@, '\n');
    }
    let ghost all = views(pieces@);
    let last = pieces.pop().unwrap();
    assert(views(pieces@) =~= all.drop_last());
    let ghost q = views(pieces@);
    let mut r: Vec<Vec<char>> = Vec::new();
    let mut k: usize = 0;
    while k < pieces.len()
        invariant
            k <= pieces@.len(),
            q == views(pieces@),
            views(r@) == q.take(k as int).map_values(|l: Seq<char>| strip_cr(l)),
        decreases pieces@.len() - k,
    {
        let p = &pieces[k];
        let m = p.len();
        let line = if m > 0 && p[m - 1] == '\r' {
            copy_range(p.as_slice(), 0, m - 1)
        } else {
            copy_range(p.as_slice(), 0, m)
        };
        assert(p@.subrange(0, m as int) == p@);
        assert(p@.subrange(0, m - 1) == p@.drop_last());
        r.push(line);
        assert(q.take(k + 1).map_values(|l: Seq<char>| strip_cr(l)) =~= q.take(k as int).map_values(
            |l: Seq<char>| strip_cr(l),
        ).push(strip_cr(q[k as int])));
        assert(views(r@) =~= q.take(k + 1).map_values(|l: Seq<char>| strip_cr(l)));
        k = k + 1;
    }
    assert(q.take(pieces@.len() as int) == q);
    let n = s.len();
    if !(n == 0 || s[n - 1] == '\n') {
        r.push(last);
        assert(views(r@) =~= q.map_values(|l: Seq<char>| strip_cr(l)).push(all.last()));
    }
    r
}

/// `str::split_whitespace`: maximal runs of non-whitespace characters.
pub open spec fn words(s: Seq<char>) -> Seq<Seq<char>>
    decreases s.len(),
{
    if s.len() == 0 {
        seq![]
    } else {
        let w = words(s.drop_last());
        let c = s.last();
        if is_ws(c) {
            w
        } else if s.len() >= 2 && !is_ws(s[s.len() - 2]) {
            w.update(w.len() - 1, w.last().push(c))
        } else {
            w.push(seq![c])
        }
    }
}

pub proof fn lemma_words_nonempty(s: Seq<char>)
    requires
        s.len() > 0,
        !is_ws(s.last()),
    ensures
        words(s).len() > 0,
    decreases s.len(),
{
    if s.len() >= 2 && !is_ws(s[s.len() - 2]) {
        lemma_words_nonempty(s.drop_last());
    }
}

/// `str::split_whitespace`, over characters.
pub fn words_of(s: &[char]) -> (r: Vec<Vec<char>>)
    ensures
        views(r@) == words(s@),
{
    let n = s.len();
    let mut r: Vec<Vec<char>> = Vec::new();
    let mut cur: Vec<char> = Vec::new();
    let mut in_word = false;
    let mut i: usize = 0;
    assert(views(r@) =~= words(s@.take(0)));
    while i < n
        invariant
            i <= n == s@.len(),
            in_word == (i > 0 && !is_ws(s@[i - 1])),
            in_word ==> views(r@).push(cur@) == words(s@.take(i as int)),
            !in_word ==> views(r@) == words(s@.take(i as int)),
        decreases n - i,
    {
        let c = s[i];
        let ghost t = s@.take(i + 1);
        assert(t.drop_last() == s@.take(i as int));
        assert(t.last() == c);
        if is_whitespace(c) {
            if in_word {
                let w = cur;
                r.push(w);
                cur = Vec::new();
                assert(views(r@) =~= words(t));
            }
            in_word = false;
        } else {
            if in_word {
                assert(t[t.len() - 2] == s@[i - 1]);
                proof {
                    lemma_words_nonempty(s@.take(i as int));
                }
                cur.push(c);
                assert(views(r@).push(cur@) =~= words(t));
            } else {
                assert(i > 0 ==> t[t.len() - 2] == s@[i - 1]);
                cur = Vec::new();
                cur.push(c);
                assert(views(r@).push(cur@) =~= words(t));
            }
            in_word = true;
        }
        i = i + 1;
    }
    assert(s@.take(n as int) == s@);
    if in_word {
        r.push(cur);
        assert(views(r@) =~= words(s@));
    }
    r
}

// ---- prefixes & searching ----

/// `str::starts_with`.
pub open spec fn starts_with(s: Seq<char>, p: Seq<char>) -> bool {
    p.len() <= s.len() && s.take(p.len() as int) == p
}

/// `p` occurs in `s` starting at index `i`.
pub open spec fn occurs_at(s: Seq<char>, p: Seq<char>, i: int) -> bool {
    0 <= i && i + p.len() <= s.len() && s.subrange(i, i + p.len()) == p
}

/// `str::contains`.
pub open spec fn contains(s: Seq<char>, p: Seq<char>) -> bool {
    exists|i: int| occurs_at(s, p, i)
}

/// First occurrence of `p` in `s` at or after `k`.
pub open spec fn find_from(s: Seq<char>, p: Seq<char>, k: int) -> Option<int>
    decreases s.len() + 1 - k,
{
    if k < 0 || k + p.len() > s.len() {
        None
    } else if occurs_at(s, p, k) {
        Some(k)
    } else {
        find_from(s, p, k + 1)
    }
}

/// `str::find`, in characters.
pub open spec fn find(s: Seq<char>, p: Seq<char>) -> Option<int> {
    find_from(s, p, 0)
}

/// Last occurrence of `p` in `s` starting before `k`.
pub open spec fn rfind_below(s: Seq<char>, p: Seq<char>, k: int) -> Option<int>
    decreases k,
{
    if k <= 0 {
        None
    } else if occurs_at(s, p, k - 1) {
        Some(k - 1)
    } else {
        rfind_below(s, p, k - 1)
    }
}

/// `str::rfind`, in characters.
pub open spec fn rfind(s: Seq<char>, p: Seq<char>) -> Option<int> {
    rfind_below(s, p, s.len() - p.len() + 1)
}

pub proof fn lemma_find_from_sound(s: Seq<char>, p: Seq<char>, k: int)
    requires
        k >= 0,
    ensures
        find_from(s, p, k) matches Some(i) ==> occurs_at(s, p, i) && k <= i && forall|j: int|
            k <= j < i ==> !occurs_at(s, p, j),
        find_from(s, p, k) is None ==> forall|j: int| k <= j ==> !occurs_at(s, p, j),
    decreases s.len() + 1 - k,
{
    if k + p.len() <= s.len() && !occurs_at(s, p, k) {
        lemma_find_from_sound(s, p, k + 1);
    }
}

pub proof fn lemma_contains_find(s: Seq<char>, p: Seq<char>)
    ensures
        contains(s, p) <==> find(s, p) is Some,
        find(s, p) matches Some(i) ==> occurs_at(s, p, i),
{
    lemma_find_from_sound(s, p, 0);
}

pub proof fn lemma_rfind_below_sound(s: Seq<char>, p: Seq<char>, k: int)
    ensures
        rfind_below(s, p, k) matches Some(i) ==> occurs_at(s, p, i) && i < k,
    decreases k,
{
    if k > 0 && !occurs_at(s, p, k - 1) {
        lemma_rfind_below_sound(s, p, k - 1);
    }
}

pub proof fn lemma_rfind_bounds(s: Seq<char>, p: Seq<char>)
    ensures
        rfind(s, p) matches Some(i) ==> occurs_at(s, p, i),
{
    lemma_rfind_below_sound(s, p, s.len() - p.len() + 1);
}

/// Filtering a sequence extended by one element.
pub proof fn lemma_filter_push<A>(s: Seq<A>, p: spec_fn(A) -> bool, x: A)
    ensures
        s.push(x).filter(p) == if p(x) {
            s.filter(p).push(x)
        } else {
            s.filter(p)
        },
{
    reveal(Seq::filter);
    assert(s.push(x).drop_last() =~= s);
}

/// Filtering by a predicate that holds everywhere keeps everything.
pub proof fn lemma_filter_all_true<A>(s: Seq<A>, p: spec_fn(A) -> bool)
    requires
        forall|i: int| 0 <= i < s.len() ==> p(#[trigger] s[i]),
    ensures
        s.filter(p) == s,
    decreases s.len(),
{
    reveal(Seq::filter);
    if s.len() > 0 {
        lemma_filter_all_true(s.drop_last(), p);
        assert(s.drop_last().push(s.last()) =~= s);
    }
}

/// Whether `p` occurs in `s` at `i` (exec).
pub fn matches_at(s: &[char], p: &[char], i: usize) -> (b: bool)
    ensures
        b == occurs_at(s@, p@, i as int),
{
    if i > s.len() || p.len() > s.len() - i {
        return false;
    }
    let n = s.len();
    let mut k: usize = 0;
    while k < p.len()
        invariant
            n == s@.len(),
            i + p@.len() <= s@.len(),
            k <= p@.len(),
            forall|m: int| 0 <= m < k ==> s@[i + m] == p@[m],
        decreases p@.len() - k,
    {
        assert(i + k < s@.len());
        if s[i + k] != p[k] {
            assert(s@.subrange(i as int, i + p@.len())[k as int] != p@[k as int]);
            return false;
        }
        k = k + 1;
    }
    assert(s@.subrange(i as int, i + p@.len()) =~= p@);
    true
}

/// `str::find`, in characters.
pub fn find_chars(s: &[char], p: &[char]) -> (r: Option<usize>)
    ensures
        r matches Some(i) ==> find(s@, p@) == Some(i as int),
        r is None ==> find(s@, p@) is None,
{
    if p.len() > s.len() {
        return None;
    }
    let last = s.len() - p.len();
    let mut i: usize = 0;
    loop
        invariant
            last + p@.len() == s@.len(),
            i <= last,
            find(s@, p@) == find_from(s@, p@, i as int),
        decreases last - i,
    {
        if matches_at(s, p, i) {
            return Some(i);
        }
        if i == last {
            assert(find_from(s@, p@, i + 1) is None);
            return None;
        }
        i = i + 1;
    }
}

/// `str::rfind`, in characters.
pub fn rfind_chars(s: &[char], p: &[char]) -> (r: Option<usize>)
    ensures
        r matches Some(i) ==> rfind(s@, p@) == Some(i as int),
        r is None ==> rfind(s@, p@) is None,
{
    if p.len() > s.len() {
        assert(s@.len() - p@.len() + 1 <= 0);
        return None;
    }
    let mut k: usize = s.len() - p.len();
    loop
        invariant
            k <= s@.len() - p@.len(),
            rfind(s@, p@) == rfind_below(s@, p@, k + 1),
        decreases k,
    {
        if matches_at(s, p, k) {
            return Some(k);
        }
        if k == 0 {
            assert(rfind_below(s@, p@, 0) is None);
            return None;
        }
        k = k - 1;
    }
}

/// `str::contains`, in characters.
pub fn contains_chars(s: &[char], p: &[char]) -> (b: bool)
    ensures
        b == contains(s@, p@),
{
    proof {
        lemma_contains_find(s@, p@);
    }
    find_chars(s, p).is_some()
}

/// `str::starts_with`, in characters.
pub fn starts_with_chars(s: &[char], p: &[char]) -> (b: bool)
    ensures
        b == starts_with(s@, p@),
{
    let b = matches_at(s, p, 0);
    assert(b ==> s@.take(p@.len() as int) == s@.subrange(0, p@.len() as int));
    b
}

/// Equality of two character sequences.
pub fn chars_eq(a: &[char], b: &[char]) -> (r: bool)
    ensures
        r == (a@ == b@),
{
    if a.len() != b.len() {
        return false;
    }
    let r = matches_at(a, b, 0);
    assert(a@.subrange(0, b@.len() as int) == a@);
    r
}

// ---- integers ----

pub open spec fn is_digit(c: char) -> bool {
    48 <= (c as u32) <= 57
}

pub open spec fn digit_val(c: char) -> int {
    (c as u32) - 48
}

pub open spec fn all_digits(d: Seq<char>) -> bool {
    forall|i: int| 0 <= i < d.len() ==> is_digit(#[trigger] d[i])
}

/// The decimal value of a run of digits.
pub open spec fn digits_value(d: Seq<char>) -> int
    decreases d.len(),
{
    if d.len() == 0 {
        0
    } else {
        digits_value(d.drop_last()) * 10 + digit_val(d.last())
    }
}

/// The digits after an optional leading `+`.
pub open spec fn unsigned_digits(s: Seq<char>) -> Seq<char> {
    if s.len() > 0 && s[0] == '+' {
        s.drop_first()
    } else {
        s
    }
}

/// `FromStr` for an unsigned integer type whose largest value is `max`:
/// an optional `+`, then one or more ASCII digits, and a value `<= max`.
pub open spec fn parse_unsigned(s: Seq<char>, max: int) -> Option<int> {
    let d = unsigned_digits(s);
    if d.len() > 0 && all_digits(d) && digits_value(d) <= max {
        Some(digits_value(d))
    } else {
        None
    }
}

/// `FromStr` for a signed integer type with range `min..=max`.
pub open spec fn parse_signed(s: Seq<char>, min: int, max: int) -> Option<int> {
    if s.len() > 0 && s[0] == '-' {
        let d = s.drop_first();
        if d.len() > 0 && all_digits(d) && -digits_value(d) >= min {
            Some(-digits_value(d))
        } else {
            None
        }
    } else {
        parse_unsigned(s, max)
    }
}

pub proof fn lemma_parse_unsigned_range(s: Seq<char>, max: int)
    ensures
        parse_unsigned(s, max) matches Some(v) ==> 0 <= v <= max,
{
    let d = unsigned_digits(s);
    if d.len() > 0 && all_digits(d) {
        lemma_digits_value_nonneg(d);
    }
}

pub proof fn lemma_parse_signed_range(s: Seq<char>, min: int, max: int)
    requires
        min <= 0 <= max,
    ensures
        parse_signed(s, min, max) matches Some(v) ==> min <= v <= max,
{
    lemma_parse_unsigned_range(s, max);
    if s.len() > 0 && s[0] == '-' {
        let d = s.drop_first();
        if d.len() > 0 && all_digits(d) {
            lemma_digits_value_nonneg(d);
        }
    }
}

pub proof fn lemma_digits_value_nonneg(d: Seq<char>)
    requires
        all_digits(d),
    ensures
        digits_value(d) >= 0,
    decreases d.len(),
{
    if d.len() > 0 {
        assert(all_digits(d.drop_last()));
        lemma_digits_value_nonneg(d.drop_last());
        assert(is_digit(d[d.len() - 1]));
    }
}

/// The value of `d` if it is a nonempty run of digits not above `bound`.
pub fn digits_upto(d: &[char], bound: u64) -> (r: Option<u64>)
    ensures
        r matches Some(v) ==> d@.len() > 0 && all_digits(d@) && digits_value(d@) == v && v
            <= bound,
        r is None ==> !(d@.len() > 0 && all_digits(d@) && digits_value(d@) <= bound),
{
    let n = d.len();
    if n == 0 {
        return None;
    }
    let cap: u128 = bound as u128 + 1;
    let mut v: u128 = 0;
    let mut i: usize = 0;
    while i < n
        invariant
            i <= n == d@.len(),
            cap == bound + 1,
            all_digits(d@.take(i as int)),
            v == if digits_value(d@.take(i as int)) < cap {
                digits_value(d@.take(i as int))
            } else {
                cap as int
            },
        decreases n - i,
    {
        let c = d[i];
        let u = c as u32;
        if u < 48 || u > 57 {
            assert(!is_digit(d@[i as int]));
            return None;
        }
        let ghost t = d@.take(i + 1);
        assert(t.drop_last() == d@.take(i as int));
        assert(t.last() == c);
        assert(all_digits(t)) by {
            assert forall|k: int| 0 <= k < t.len() implies is_digit(#[trigger] t[k]) by {
                if k < i {
                    assert(t[k] == d@.take(i as int)[k]);
                }
            }
        }
        proof {
            lemma_digits_value_nonneg(d@.take(i as int));
        }
        let nv = v * 10 + (u - 48) as u128;
        v = if nv < cap {
            nv
        } else {
            cap
        };
        i = i + 1;
    }
    assert(d@.take(n as int) == d@);
    if v < cap {
        Some(v as u64)
    } else {
        None
    }
}

/// `FromStr` for an unsigned type with largest value `max`.
pub fn parse_unsigned_chars(s: &[char], max: u64) -> (r: Option<u64>)
    ensures
        r matches Some(v) ==> parse_unsigned(s@, max as int) == Some(v as int),
        r is None ==> parse_unsigned(s@, max as int) is None,
{
    if s.len() > 0 && s[0] == '+' {
        let d = copy_range(s, 1, s.len());
        assert(d@ == s@.drop_first());
        digits_upto(d.as_slice(), max)
    } else {
        digits_upto(s, max)
    }
}

/// `FromStr` for a signed type with range `-(neg_bound)..=max`.
pub fn parse_signed_chars(s: &[char], neg_bound: u64, max: u64) -> (r: Option<i128>)
    ensures
        r matches Some(v) ==> parse_signed(s@, -(neg_bound as int), max as int) == Some(v as int),
        r is None ==> parse_signed(s@, -(neg_bound as int), max as int) is None,
{
    if s.len() > 0 && s[0] == '-' {
        let d = copy_range(s, 1, s.len());
        assert(d@ == s@.drop_first());
        match digits_upto(d.as_slice(), neg_bound) {
            Some(m) => Some(-(m as i128)),
            None => None,
        }
    } else {
        match parse_unsigned_chars(s, max) {
            Some(v) => Some(v as i128),
            None => None,
        }
    }
}

pub fn parse_u16(s: &[char]) -> (r: Option<u16>)
    ensures
        r matches Some(v) ==> parse_unsigned(s@, u16::MAX as int) == Some(v as int),
        r is None ==> parse_unsigned(s@, u16::MAX as int) is None,
{
    proof {
        lemma_parse_unsigned_range(s@, u16::MAX as int);
    }
    match parse_unsigned_chars(s, u16::MAX as u64) {
        Some(v) => Some(v as u16),
        None => None,
    }
}

pub fn parse_u32(s: &[char]) -> (r: Option<u32>)
    ensures
        r matches Some(v) ==> parse_unsigned(s@, u32::MAX as int) == Some(v as int),
        r is None ==> parse_unsigned(s@, u32::MAX as int) is None,
{
    proof {
        lemma_parse_unsigned_range(s@, u32::MAX as int);
    }
    match parse_unsigned_chars(s, u32::MAX as u64) {
        Some(v) => Some(v as u32),
        None => None,
    }
}

pub fn parse_i32(s: &[char]) -> (r: Option<i32>)
    ensures
        r matches Some(v) ==> parse_signed(s@, i32::MIN as int, i32::MAX as int) == Some(
            v as int,
        ),
        r is None ==> parse_signed(s@, i32::MIN as int, i32::MAX as int) is None,
{
    proof {
        lemma_parse_signed_range(s@, i32::MIN as int, i32::MAX as int);
    }
    match parse_signed_chars(s, 0x8000_0000, i32::MAX as u64) {
        Some(v) => Some(v as i32),
        None => None,
    }
}

pub fn parse_i64(s: &[char]) -> (r: Option<i64>)
    ensures
        r matches Some(v) ==> parse_signed(s@, i64::MIN as int, i64::MAX as int) == Some(
            v as int,
        ),
        r is None ==> parse_signed(s@, i64::MIN as int, i64::MAX as int) is None,
{
    proof {
        lemma_parse_signed_range(s@, i64::MIN as int, i64::MAX as int);
    }
    match parse_signed_chars(s, 0x8000_0000_0000_0000, i64::MAX as u64) {
        Some(v) => Some(v as i64),
        None => None,
    }
}

// ---- hexadecimal ----

pub open spec fn is_hex_digit(c: char) -> bool {
    let u = c as u32;
    (48 <= u <= 57) || (65 <= u <= 70) || (97 <= u <= 102)
}

pub open spec fn hex_val(c: char) -> int {
    let u = c as u32;
    if 48 <= u <= 57 {
        u - 48
    } else if 65 <= u <= 70 {
        u - 55
    } else {
        u - 87
    }
}

pub open spec fn all_hex(d: Seq<char>) -> bool {
    forall|i: int| 0 <= i < d.len() ==> is_hex_digit(#[trigger] d[i])
}

pub open spec fn hex_value(d: Seq<char>) -> int
    decreases d.len(),
{
    if d.len() == 0 {
        0
    } else {
        hex_value(d.drop_last()) * 16 + hex_val(d.last())
    }
}

/// `from_str_radix(s, 16)` for an unsigned type with largest value `max`.
pub open spec fn parse_hex(s: Seq<char>, max: int) -> Option<int> {
    let d = unsigned_digits(s);
    if d.len() > 0 && all_hex(d) && hex_value(d) <= max {
        Some(hex_value(d))
    } else {
        None
    }
}

pub proof fn lemma_hex_value_nonneg(d: Seq<char>)
    requires
        all_hex(d),
    ensures
        hex_value(d) >= 0,
    decreases d.len(),
{
    if d.len() > 0 {
        assert(all_hex(d.drop_last()));
        lemma_hex_value_nonneg(d.drop_last());
        assert(is_hex_digit(d[d.len() - 1]));
    }
}

/// `from_str_radix(s, 16)` for an unsigned type with largest value `max`.
pub fn parse_hex_chars(s: &[char], max: u64) -> (r: Option<u64>)
    ensures
        r matches Some(v) ==> parse_hex(s@, max as int) == Some(v as int),
        r is None ==> parse_hex(s@, max as int) is None,
{
    let d = if s.len() > 0 && s[0] == '+' {
        copy_range(s, 1, s.len())
    } else {
        copy_range(s, 0, s.len())
    };
    assert(d@ == unsigned_digits(s@));
    let n = d.len();
    if n == 0 {
        return None;
    }
    let cap: u128 = max as u128 + 1;
    let mut v: u128 = 0;
    let mut i: usize = 0;
    while i < n
        invariant
            i <= n == d@.len(),
            d@ == unsigned_digits(s@),
            cap == max + 1,
            all_hex(d@.take(i as int)),
            v == if hex_value(d@.take(i as int)) < cap {
                hex_value(d@.take(i as int))
            } else {
                cap as int
            },
        decreases n - i,
    {
        let c = d[i];
        let u = c as u32;
        if !((48 <= u && u <= 57) || (65 <= u && u <= 70) || (97 <= u && u <= 102)) {
            assert(!is_hex_digit(d@[i as int]));
            assert(!all_hex(d@));
            return None;
        }
        let dv: u32 = if 48 <= u && u <= 57 {
            u - 48
        } else if 65 <= u && u <= 70 {
            u - 55
        } else {
            u - 87
        };
        let ghost t = d@.take(i + 1);
        assert(t.drop_last() == d@.take(i as int));
        assert(t.last() == c);
        assert(all_hex(t)) by {
            assert forall|k: int| 0 <= k < t.len() implies is_hex_digit(#[trigger] t[k]) by {
                if k < i {
                    assert(t[k] == d@.take(i as int)[k]);
                }
            }
        }
        proof {
            lemma_hex_value_nonneg(d@.take(i as int));
        }
        let nv = v * 16 + dv as u128;
        v = if nv < cap {
            nv
        } else {
            cap
        };
        i = i + 1;
    }
    assert(d@.take(n as int) == d@);
    if v < cap {
        Some(v as u64)
    } else {
        None
    }
}

// ---- formatting ----

pub open spec fn digit_char(d: int) -> char {
    (48 + d) as char
}

/// Decimal digits of `n` (the `Display` form of an unsigned integer).
pub open spec fn nat_to_dec(n: nat) -> Seq<char>
    decreases n,
{
    if n < 10 {
        seq![digit_char(n as int)]
    } else {
        nat_to_dec(n / 10).push(digit_char((n % 10) as int))
    }
}

/// The `Display` form of an integer.
pub open spec fn int_to_dec(i: int) -> Seq<char> {
    if i < 0 {
        seq!['-'] + nat_to_dec((-i) as nat)
    } else {
        nat_to_dec(i as nat)
    }
}

/// The decimal digits of `n` are digits, and read back as `n`.
pub proof fn lemma_nat_to_dec_value(n: nat)
    ensures
        nat_to_dec(n).len() > 0,
        all_digits(nat_to_dec(n)),
        digits_value(nat_to_dec(n)) == n,
    decreases n,
{
    let k = (n % 10) as int;
    assert(digit_char(k) as u32 == 48 + k);
    assert(digit_val(digit_char(k)) == k);
    if n >= 10 {
        lemma_nat_to_dec_value(n / 10);
        let d = nat_to_dec(n);
        assert(d.drop_last() == nat_to_dec(n / 10));
        assert(d.last() == digit_char(k));
        assert(digits_value(d) == digits_value(d.drop_last()) * 10 + digit_val(d.last()));
        assert((n / 10) * 10 + n % 10 == n) by (nonlinear_arith);
    } else {
        let d = nat_to_dec(n);
        assert(d.drop_last() =~= Seq::<char>::empty());
        assert(digits_value(d) == digits_value(d.drop_last()) * 10 + digit_val(d.last()));
        assert(n % 10 == n);
    }
}

/// A sequence of digits has no whitespace at either end, so `trim` keeps it.
pub proof fn lemma_trim_plain(s: Seq<char>)
    requires
        s.len() > 0,
        !is_ws(s[0]),
        !is_ws(s.last()),
    ensures
        trim(s) == s,
{
}

/// Reading the decimal text of a value within `min..=max` gives it back.
pub proof fn lemma_int_to_dec_parses(i: int, min: int, max: int)
    requires
        min <= i <= max,
        min <= 0 <= max,
    ensures
        parse_signed(int_to_dec(i), min, max) == Some(i),
        trim(int_to_dec(i)) == int_to_dec(i),
        forall|k: int| 0 <= k < int_to_dec(i).len() ==> #[trigger] int_to_dec(i)[k] != ',',
{
    if i < 0 {
        let d = nat_to_dec((-i) as nat);
        lemma_nat_to_dec_value((-i) as nat);
        let s = int_to_dec(i);
        assert(s.drop_first() == d);
        assert(is_digit(d[0]));
        assert(is_digit(s.last()));
        lemma_trim_plain(s);
        assert forall|k: int| 0 <= k < s.len() implies #[trigger] s[k] != ',' by {
            if k > 0 {
                assert(s[k] == d[k - 1]);
                assert(is_digit(d[k - 1]));
            }
        }
    } else {
        let d = nat_to_dec(i as nat);
        lemma_nat_to_dec_value(i as nat);
        assert(is_digit(d[0]));
        assert(is_digit(d.last()));
        lemma_trim_plain(d);
        assert forall|k: int| 0 <= k < d.len() implies #[trigger] d[k] != ',' by {
            assert(is_digit(d[k]));
        }
    }
}

/// Appends the decimal digits of `n`.
pub fn push_nat(out: &mut Vec<char>, n: u64)
    ensures
        final(out)@ == old(out)@ + nat_to_dec(n as nat),
    decreases n,
{
    if n >= 10 {
        push_nat(out, n / 10);
    }
    let d = (n % 10) as u8;
    out.push((48u8 + d) as char);
    assert(final(out)@ =~= old(out)@ + nat_to_dec(n as nat));
}

/// Appends the `Display` form of `i`.
pub fn push_int(out: &mut Vec<char>, i: i64)
    ensures
        final(out)@ == old(out)@ + int_to_dec(i as int),
{
    if i < 0 {
        out.push('-');
        let m: u64 = (-(i as i128)) as u64;
        push_nat(out, m);
        assert(final(out)@ =~= old(out)@ + int_to_dec(i as int));
    } else {
        push_nat(out, i as u64);
    }
}

pub open spec fn hex_char(d: int) -> char {
    if d < 10 {
        (48 + d) as char
    } else {
        (55 + d) as char
    }
}

/// Upper-case hexadecimal digits of `n`.
pub open spec fn nat_to_hex(n: nat) -> Seq<char>
    decreases n,
{
    if n < 16 {
        seq![hex_char(n as int)]
    } else {
        nat_to_hex(n / 16).push(hex_char((n % 16) as int))
    }
}

/// `format!("{:04X}", n)`: upper-case hex, zero-padded to at least four digits.
pub open spec fn hex4(n: nat) -> Seq<char> {
    let h = nat_to_hex(n);
    if h.len() < 4 {
        Seq::new((4 - h.len()) as nat, |i: int| '0') + h
    } else {
        h
    }
}

/// The hexadecimal digits of `n` are hex digits, and read back as `n`.
pub proof fn lemma_nat_to_hex_value(n: nat)
    ensures
        nat_to_hex(n).len() > 0,
        all_hex(nat_to_hex(n)),
        hex_value(nat_to_hex(n)) == n,
    decreases n,
{
    let k = (n % 16) as int;
    assert(hex_char(k) as u32 == if k < 10 { 48 + k } else { 55 + k });
    assert(is_hex_digit(hex_char(k)));
    assert(hex_val(hex_char(k)) == k);
    let h = nat_to_hex(n);
    if n >= 16 {
        lemma_nat_to_hex_value(n / 16);
        assert(h.drop_last() == nat_to_hex(n / 16));
        assert(h.last() == hex_char(k));
        assert(hex_value(h) == hex_value(h.drop_last()) * 16 + hex_val(h.last()));
        assert((n / 16) * 16 + n % 16 == n) by (nonlinear_arith);
    } else {
        assert(h.drop_last() =~= Seq::<char>::empty());
        assert(hex_value(h) == hex_value(h.drop_last()) * 16 + hex_val(h.last()));
        assert(n % 16 == n);
    }
}

/// Values below `16^4` have at most four hexadecimal digits.
pub proof fn lemma_nat_to_hex_short(n: nat)
    requires
        n < 0x10000,
    ensures
        nat_to_hex(n).len() <= 4,
{
    let a = n / 16;
    let b = a / 16;
    let c = b / 16;
    assert(c < 16);
    assert(nat_to_hex(c).len() == 1);
    assert(b >= 16 ==> nat_to_hex(b).len() == nat_to_hex(c).len() + 1);
    assert(b < 16 ==> nat_to_hex(b).len() == 1);
    assert(a >= 16 ==> nat_to_hex(a).len() == nat_to_hex(b).len() + 1);
    assert(a < 16 ==> nat_to_hex(a).len() == 1);
    assert(n >= 16 ==> nat_to_hex(n).len() == nat_to_hex(a).len() + 1);
}

/// Leading zeros do not change a hexadecimal value.
pub proof fn lemma_hex_zero_prefix(z: Seq<char>, h: Seq<char>)
    requires
        forall|k: int| 0 <= k < z.len() ==> #[trigger] z[k] == '0',
    ensures
        hex_value(z + h) == hex_value(h),
        all_hex(h) ==> all_hex(z + h),
    decreases z.len() + h.len(),
{
    if h.len() == 0 {
        assert(z + h =~= z);
        if z.len() > 0 {
            lemma_hex_zero_prefix(z.drop_last(), h);
            assert(z.drop_last() + h =~= z.drop_last());
            assert(hex_val(z.last()) == 0);
        }
    } else {
        lemma_hex_zero_prefix(z, h.drop_last());
        assert((z + h).drop_last() =~= z + h.drop_last());
        assert((z + h).last() == h.last());
    }
    if all_hex(h) {
        assert forall|k: int| 0 <= k < (z + h).len() implies is_hex_digit(#[trigger] (z + h)[k]) by {
            if k < z.len() {
                assert((z + h)[k] == '0');
            } else {
                assert((z + h)[k] == h[k - z.len()]);
            }
        }
    }
}

/// `format!("{:04X}", n)` read back with `from_str_radix(.., 16)` gives `n`,
/// and for `n` below `0x10000` it is exactly four characters.
pub proof fn lemma_hex4_roundtrip(n: nat, max: int)
    requires
        n <= max,
    ensures
        parse_hex(hex4(n), max) == Some(n as int),
        n < 0x10000 ==> hex4(n).len() == 4,
{
    let h = nat_to_hex(n);
    lemma_nat_to_hex_value(n);
    if n < 0x10000 {
        lemma_nat_to_hex_short(n);
    }
    let s = hex4(n);
    if h.len() < 4 {
        let z = Seq::new((4 - h.len()) as nat, |i: int| '0');
        lemma_hex_zero_prefix(z, h);
        assert(s == z + h);
        assert(s[0] == '0');
    } else {
        assert(is_hex_digit(h[0]));
    }
    assert(s.len() > 0 && s[0] != '+');
    assert(unsigned_digits(s) == s);
}

pub fn push_hex(out: &mut Vec<char>, n: u64)
    ensures
        final(out)@ == old(out)@ + nat_to_hex(n as nat),
    decreases n,
{
    if n >= 16 {
        push_hex(out, n / 16);
    }
    let d = (n % 16) as u8;
    let c = if d < 10 {
        (48u8 + d) as char
    } else {
        (55u8 + d) as char
    };
    out.push(c);
    assert(final(out)@ =~= old(out)@ + nat_to_hex(n as nat));
}

/// `format!("{:04X}", n)`.
pub fn hex4_chars(n: u64) -> (r: Vec<char>)
    ensures
        r@ == hex4(n as nat),
{
    let mut h: Vec<char> = Vec::new();
    push_hex(&mut h, n);
    assert(h@ =~= nat_to_hex(n as nat));
    let mut r: Vec<char> = Vec::new();
    if h.len() < 4 {
        let pad = 4 - h.len();
        let mut k: usize = 0;
        while k < pad
            invariant
                k <= pad,
                r@ == Seq::new(k as nat, |i: int| '0'),
            decreases pad - k,
        {
            r.push('0');
            assert(r@ =~= Seq::new((k + 1) as nat, |i: int| '0'));
            k = k + 1;
        }
    }
    r.extend_from_slice(h.as_slice());
    r
}

/// `s` joined by `sep`.
pub open spec fn join(list: Seq<Seq<char>>, sep: Seq<char>) -> Seq<char>
    decreases list.len(),
{
    if list.len() == 0 {
        seq![]
    } else if list.len() == 1 {
        list[0]
    } else {
        join(list.drop_last(), sep) + sep + list.last()
    }
}

/// Text without the separator is a single piece.
pub proof fn lemma_split_plain(b: Seq<char>, sep: char)
    requires
        forall|k: int| 0 <= k < b.len() ==> #[trigger] b[k] != sep,
    ensures
        split_on(b, sep) == seq![b],
    decreases b.len(),
{
    if b.len() > 0 {
        lemma_split_plain(b.drop_last(), sep);
        assert(b.drop_last().push(b.last()) == b);
        assert(split_on(b, sep) =~= seq![b]);
    } else {
        assert(b =~= Seq::<char>::empty());
    }
}

/// Splitting `a`, the separator, then text without it: the pieces of `a`
/// and that text.
pub proof fn lemma_split_after_sep(a: Seq<char>, b: Seq<char>, sep: char)
    requires
        forall|k: int| 0 <= k < b.len() ==> #[trigger] b[k] != sep,
    ensures
        split_on(a + seq![sep] + b, sep) == split_on(a, sep).push(b),
    decreases b.len(),
{
    let s = a + seq![sep] + b;
    if b.len() == 0 {
        assert(s.drop_last() =~= a);
        assert(s.last() == sep);
        assert(b =~= Seq::<char>::empty());
        assert(split_on(s, sep) =~= split_on(a, sep).push(b));
    } else {
        lemma_split_after_sep(a, b.drop_last(), sep);
        assert(s.drop_last() == a + seq![sep] + b.drop_last());
        assert(s.last() == b.last());
        assert(b.drop_last().push(b.last()) == b);
        lemma_split_on_nonempty(s.drop_last(), sep);
        assert(split_on(s, sep) =~= split_on(a, sep).push(b));
    }
}

/// Joining two non-empty lists: the first joined, the separator, the second
/// joined.
pub proof fn lemma_join_concat(a: Seq<Seq<char>>, b: Seq<Seq<char>>, sep: Seq<char>)
    requires
        a.len() > 0,
        b.len() > 0,
    ensures
        join(a + b, sep) == join(a, sep) + sep + join(b, sep),
    decreases b.len(),
{
    let ab = a + b;
    if b.len() == 1 {
        assert(ab.drop_last() =~= a);
        assert(ab.last() == b[0]);
    } else {
        lemma_join_concat(a, b.drop_last(), sep);
        assert(ab.drop_last() =~= a + b.drop_last());
        assert(ab.last() == b.last());
        assert(join(ab, sep) == join(ab.drop_last(), sep) + sep + ab.last());
        assert(join(b, sep) == join(b.drop_last(), sep) + sep + b.last());
        assert(join(a, sep) + sep + join(b.drop_last(), sep) + sep + b.last() =~= join(a, sep)
            + sep + (join(b.drop_last(), sep) + sep + b.last()));
    }
}

/// A non-empty joined list starts with its first part.
pub proof fn lemma_join_first(list: Seq<Seq<char>>, sep: Seq<char>)
    requires
        list.len() > 0,
    ensures
        join(list, sep).len() >= list[0].len(),
        join(list, sep).take(list[0].len() as int) == list[0],
    decreases list.len(),
{
    if list.len() > 1 {
        lemma_join_first(list.drop_last(), sep);
        let j = join(list.drop_last(), sep);
        assert(join(list, sep) == j + sep + list.last());
        assert((j + sep + list.last()).take(list[0].len() as int) =~= j.take(
            list[0].len() as int,
        ));
    } else {
        assert(list[0].take(list[0].len() as int) =~= list[0]);
    }
}

/// A joined list of at least two parts ends with its last part, after the
/// separator.
pub proof fn lemma_join_last(list: Seq<Seq<char>>, sep: Seq<char>)
    requires
        list.len() > 1,
    ensures
        join(list, sep) == join(list.drop_last(), sep) + sep + list.last(),
{
}

/// No character `c` in the parts nor in the separator: none in the joined text.
pub proof fn lemma_join_free_of(list: Seq<Seq<char>>, sep: Seq<char>, c: char)
    requires
        forall|k: int, j: int| 0 <= k < list.len() && 0 <= j < list[k].len() ==> #[trigger] list[k][j]
            != c,
        forall|j: int| 0 <= j < sep.len() ==> #[trigger] sep[j] != c,
    ensures
        forall|j: int| 0 <= j < join(list, sep).len() ==> #[trigger] join(list, sep)[j] != c,
    decreases list.len(),
{
    if list.len() > 1 {
        lemma_join_free_of(list.drop_last(), sep, c);
        let j0 = join(list.drop_last(), sep);
        let l = list.last();
        assert(forall|j: int| 0 <= j < l.len() ==> #[trigger] l[j] != c) by {
            assert forall|j: int| 0 <= j < l.len() implies #[trigger] l[j] != c by {
                assert(l[j] == list[list.len() - 1][j]);
            }
        }
        assert forall|j: int| 0 <= j < join(list, sep).len() implies #[trigger] join(list, sep)[j]
            != c by {
            let t = j0 + sep + l;
            assert(join(list, sep) == t);
            if j < j0.len() {
                assert(t[j] == j0[j]);
            } else if j < j0.len() + sep.len() {
                assert(t[j] == sep[j - j0.len()]);
            } else {
                assert(t[j] == l[j - j0.len() - sep.len()]);
            }
        }
    } else if list.len() == 1 {
        assert forall|j: int| 0 <= j < join(list, sep).len() implies #[trigger] join(list, sep)[j]
            != c by {
            assert(join(list, sep)[j] == list[0][j]);
        }
    }
}

/// Lines without the separator, joined by it, split back into the same lines.
pub proof fn lemma_split_join(list: Seq<Seq<char>>, sep: char)
    requires
        list.len() > 0,
        forall|k: int, j: int| 0 <= k < list.len() && 0 <= j < list[k].len() ==> #[trigger] list[k][j]
            != sep,
    ensures
        split_on(join(list, seq![sep]), sep) == list,
    decreases list.len(),
{
    let l = list.last();
    assert(forall|j: int| 0 <= j < l.len() ==> #[trigger] l[j] != sep) by {
        assert forall|j: int| 0 <= j < l.len() implies #[trigger] l[j] != sep by {
            assert(l[j] == list[list.len() - 1][j]);
        }
    }
    if list.len() == 1 {
        lemma_split_plain(list[0], sep);
        assert(list =~= seq![list[0]]);
    } else {
        lemma_split_join(list.drop_last(), sep);
        lemma_split_after_sep(join(list.drop_last(), seq![sep]), l, sep);
        assert(list.drop_last().push(l) =~= list);
    }
}

/// The parts joined, with `sep` between neighbours.
pub fn join_chars(parts: &Vec<Vec<char>>, sep: &[char]) -> (r: Vec<char>)
    ensures
        r@ == join(views(parts@), sep@),
{
    let mut out: Vec<char> = Vec::new();
    let mut i: usize = 0;
    while i < parts.len()
        invariant
            i <= parts.len(),
            out@ == join(views(parts@).take(i as int), sep@),
        decreases parts.len() - i,
    {
        let ghost pv = views(parts@);
        assert(pv.take(i + 1).drop_last() =~= pv.take(i as int));
        assert(pv.take(i + 1).last() == parts@[i as int]@);
        if i > 0 {
            out.extend_from_slice(sep);
        } else {
            assert(pv.take(0) =~= Seq::<Seq<char>>::empty());
        }
        out.extend_from_slice(parts[i].as_slice());
        i = i + 1;
    }
    assert(views(parts@).take(parts.len() as int) =~= views(parts@));
    out
}

// ---- strings ----

/// The characters of `s`, in order.
pub fn chars_of(s: &str) -> (v: Vec<char>)
    ensures
        v@ == s@,
{
    let mut v: Vec<char> = Vec::new();
    for c in it: s.chars()
        invariant
            v@ == it.seq().take(it.index() as int),
    {
        v.push(c);
    }
    v
}

/// `String::push`.
#[verifier::external_body]
fn string_push(s: &mut String, c: char)
    ensures
        final(s)@ == old(s)@.push(c),
{
    s.push(c);
}

/// A `String` holding the characters `v`.
pub fn string_of(v: &[char]) -> (s: String)
    ensures
        s@ == v@,
{
    let mut s = String::new();
    let mut i: usize = 0;
    while i < v.len()
        invariant
            i <= v@.len(),
            s@ == v@.take(i as int),
        decreases v@.len() - i,
    {
        string_push(&mut s, v[i]);
        assert(v@.take(i + 1) == v@.take(i as int).push(v@[i as int]));
        i = i + 1;
    }
    assert(v@.take(v@.len() as int) == v@);
    s
}

/// Appends the characters of `s`.
pub fn push_str(out: &mut Vec<char>, s: &str)
    ensures
        final(out)@ == old(out)@ + s@,
{
    let c = chars_of(s);
    out.extend_from_slice(c.as_slice());
}

} // verus!
