//! Insertion sorts, proved equal to vstd's `sort_by` under a total order.
use vstd::prelude::*;
use vstd::relations::{sorted_by, total_ordering};
use vstd::seq_lib::{lemma_sorted_unique, to_multiset_insert};

verus! {

/// `<=` on indices.
pub open spec fn index_leq() -> spec_fn(usize, usize) -> bool {
    |a: usize, b: usize| a <= b
}

/// `(key, position)` pairs ordered by key, then by position.
pub open spec fn key_pos_leq() -> spec_fn((i128, usize), (i128, usize)) -> bool {
    |a: (i128, usize), b: (i128, usize)| a.0 < b.0 || (a.0 == b.0 && a.1 <= b.1)
}

pub proof fn lemma_index_leq_total()
    ensures
        total_ordering(index_leq()),
{
}

pub proof fn lemma_key_pos_leq_total()
    ensures
        total_ordering(key_pos_leq()),
{
}

/// The indices in ascending order.
pub fn sort_indices(v: Vec<usize>) -> (r: Vec<usize>)
    ensures
        r@ == v@.sort_by(index_leq()),
{
    let ghost leq = index_leq();
    let mut out: Vec<usize> = Vec::new();
    let mut i: usize = 0;
    assert(v@.take(0) =~= out@);
    while i < v.len()
        invariant
            leq == index_leq(),
            i <= v.len(),
            sorted_by(out@, leq),
            out@.to_multiset() == v@.take(i as int).to_multiset(),
        decreases v.len() - i,
    {
        let x = v[i];
        let mut j: usize = 0;
        while j < out.len() && out[j] <= x
            invariant
                j <= out.len(),
                forall|k: int| 0 <= k < j ==> out@[k] <= x,
            decreases out.len() - j,
        {
            j = j + 1;
        }
        let ghost before = out@;
        out.insert(j, x);
        proof {
            to_multiset_insert(before, j as int, x);
            assert(v@.take(i + 1) == v@.take(i as int).push(x));
            vstd::seq_lib::to_multiset_build(v@.take(i as int), x);
            assert forall|a: int, b: int| 0 <= a < b < out@.len() implies #[trigger] leq(
                out@[a],
                out@[b],
            ) by {
                if b < j {
                    assert(leq(before[a], before[b]));
                } else if a < j && b == j {
                } else if a < j {
                    assert(before[a] <= x);
                    assert(j < before.len());
                    assert(leq(before[j as int], before[b - 1]));
                } else if a == j {
                    assert(before[j as int] > x);
                    if b - 1 > j {
                        assert(leq(before[j as int], before[b - 1]));
                    }
                } else {
                    assert(leq(before[a - 1], before[b - 1]));
                }
            }
        }
        i = i + 1;
    }
    proof {
        assert(v@.take(v.len() as int) == v@);
        lemma_index_leq_total();
        v@.lemma_sort_by_ensures(leq);
        lemma_sorted_unique(out@, v@.sort_by(leq), leq);
    }
    out
}

/// The pairs ordered by key, ties broken by position.
pub fn sort_key_pos(v: Vec<(i128, usize)>) -> (r: Vec<(i128, usize)>)
    ensures
        r@ == v@.sort_by(key_pos_leq()),
{
    let ghost leq = key_pos_leq();
    let mut out: Vec<(i128, usize)> = Vec::new();
    let mut i: usize = 0;
    assert(v@.take(0) =~= out@);
    while i < v.len()
        invariant
            leq == key_pos_leq(),
            i <= v.len(),
            sorted_by(out@, leq),
            out@.to_multiset() == v@.take(i as int).to_multiset(),
        decreases v.len() - i,
    {
        let x = v[i];
        let mut j: usize = 0;
        while j < out.len() && (out[j].0 < x.0 || (out[j].0 == x.0 && out[j].1 <= x.1))
            invariant
                j <= out.len(),
                forall|k: int| 0 <= k < j ==> #[trigger] leq(out@[k], x),
                leq == key_pos_leq(),
            decreases out.len() - j,
        {
            j = j + 1;
        }
        let ghost before = out@;
        out.insert(j, x);
        proof {
            lemma_key_pos_leq_total();
            to_multiset_insert(before, j as int, x);
            assert(v@.take(i + 1) == v@.take(i as int).push(x));
            vstd::seq_lib::to_multiset_build(v@.take(i as int), x);
            assert forall|a: int, b: int| 0 <= a < b < out@.len() implies #[trigger] leq(
                out@[a],
                out@[b],
            ) by {
                if b < j {
                    assert(leq(before[a], before[b]));
                } else if a < j && b == j {
                    assert(leq(before[a], x));
                } else if a < j {
                    assert(leq(before[a], x));
                    assert(!leq(before[j as int], x));
                    assert(leq(x, before[j as int]));
                    assert(leq(before[j as int], before[b - 1]) || j == b - 1);
                } else if a == j {
                    assert(!leq(before[j as int], x));
                    assert(leq(x, before[j as int]));
                    if b - 1 > j {
                        assert(leq(before[j as int], before[b - 1]));
                    }
                } else {
                    assert(leq(before[a - 1], before[b - 1]));
                }
            }
        }
        i = i + 1;
    }
    proof {
        assert(v@.take(v.len() as int) == v@);
        lemma_key_pos_leq_total();
        v@.lemma_sort_by_ensures(leq);
        lemma_sorted_unique(out@, v@.sort_by(leq), leq);
    }
    out
}

} // verus!
