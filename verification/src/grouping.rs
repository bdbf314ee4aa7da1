//! Putting rows in order: grouping row numbers by a small key, keeping their order within a
//! group, and sorting numbers ascending. Both are the same for any thread count and give the
//! same answer for the same input, whatever order equal values came in.

use vstd::prelude::*;

use vstd::relations::{sorted_by, total_ordering};
use vstd::seq_lib::lemma_multiset_commutative;

use crate::store::{
    count_below, lemma_count_below_all, lemma_count_below_monotone, lemma_count_below_step,
    lemma_count_below_zero, lemma_occurrences_bounded, lemma_occurrences_prefix, occurrences,
};

verus! {

/// The row numbers whose key is `k`, ascending.
pub open spec fn rows_with(keys: Seq<u32>, k: u32) -> Seq<u32>
    decreases keys.len(),
{
    if keys.len() == 0 {
        Seq::empty()
    } else {
        rows_with(keys.drop_last(), k) + if keys.last() == k { seq![(keys.len() - 1) as u32] } else { Seq::empty() }
    }
}

/// The rows of `keys` grouped by key: key `k`'s rows are `order[start[k]..start[k + 1]]`,
/// ascending. Every key is below `n`.
pub fn group_rows(keys: &[u32], n: u32) -> (r: (Vec<u32>, Vec<u32>))
    requires
        forall|i: int| 0 <= i < keys.len() ==> #[trigger] keys@[i] < n,
        keys.len() <= u32::MAX,
        n < usize::MAX,
    ensures
        r.0@.len() == n + 1,
        r.0@[0] == 0,
        r.0@[n as int] == keys.len(),
        r.1@.len() == keys.len(),
        forall|a: int, b: int| 0 <= a <= b <= n ==> #[trigger] r.0@[a] <= #[trigger] r.0@[b],
        forall|k: int| 0 <= k < n ==> #[trigger] r.1@.subrange(r.0@[k] as int, r.0@[k + 1] as int) == rows_with(keys@, k as u32),
{
    let ghost all = keys@;
    let nn: usize = n as usize;
    let mut start: Vec<u32> = vec![0u32; nn + 1];
    proof {
        lemma_count_below_zero(all);
    }
    let mut i: usize = 0;
    while i < keys.len()
        invariant
            keys@ == all,
            all.len() <= u32::MAX,
            forall|p: int| 0 <= p < all.len() ==> #[trigger] all[p] < n,
            nn == n,
            i <= all.len(),
            start@.len() == nn + 1,
            start@[0] == 0,
            forall|m: int| 0 <= m < nn ==> #[trigger] start@[m + 1] == occurrences(all.take(i as int), m as u32),
        decreases all.len() - i,
    {
        let l = keys[i];
        proof {
            assert(all.take(i + 1).drop_last() =~= all.take(i as int));
            lemma_occurrences_prefix(all.take(i + 1), i as int, l);
            lemma_occurrences_bounded(all.take(i + 1), l);
        }
        let c = start[l as usize + 1];
        start.set(l as usize + 1, c + 1);
        i = i + 1;
    }
    proof {
        assert(all.take(i as int) =~= all);
        assert forall|m: int| 1 <= m <= nn implies #[trigger] start@[m] == occurrences(all, (m - 1) as u32) by {
            assert(start@[(m - 1) + 1] == occurrences(all.take(i as int), (m - 1) as u32));
        }
    }
    let mut q: usize = 1;
    while q < nn + 1
        invariant
            keys@ == all,
            all.len() <= u32::MAX,
            nn == n,
            nn < usize::MAX,
            1 <= q <= nn + 1,
            start@.len() == nn + 1,
            forall|m: int| 0 <= m < q ==> #[trigger] start@[m] == count_below(all, m),
            forall|m: int| q <= m <= nn ==> #[trigger] start@[m] == occurrences(all, (m - 1) as u32),
        decreases nn + 1 - q,
    {
        proof {
            lemma_count_below_step(all, (q - 1) as u32);
            lemma_count_below_all(all, q as int);
        }
        let a = start[q];
        let b = start[q - 1];
        start.set(q, a + b);
        q = q + 1;
    }
    proof {
        lemma_count_below_all(all, nn as int);
        assert forall|a: int, b: int| 0 <= a <= b < start@.len() implies #[trigger] start@[a] <= #[trigger] start@[b] by {
            lemma_count_below_monotone(all, a, b);
        }
        assert forall|m: int| 0 <= m < nn implies #[trigger] start@[m + 1] == start@[m] + occurrences(all, m as u32) by {
            lemma_count_below_step(all, m as u32);
        }
    }
    let mut fill = start.clone();
    let mut order: Vec<u32> = vec![0u32; keys.len()];
    proof {
        assert(fill@ =~= start@);
        assert(all.take(0) =~= Seq::<u32>::empty());
        assert forall|m: int| 0 <= m < nn implies #[trigger] order@.subrange(start@[m] as int, fill@[m] as int) == rows_with(all.take(0), m as u32) by {
            assert(start@[m] <= start@[nn as int]);
            assert(order@.subrange(start@[m] as int, fill@[m] as int) =~= Seq::<u32>::empty());
        }
    }
    let mut p: usize = 0;
    while p < keys.len()
        invariant
            keys@ == all,
            all.len() <= u32::MAX,
            forall|x: int| 0 <= x < all.len() ==> #[trigger] all[x] < n,
            nn == n,
            p <= all.len(),
            start@.len() == nn + 1,
            fill@.len() == nn + 1,
            order@.len() == all.len(),
            start@[nn as int] == all.len(),
            forall|a: int, b: int| 0 <= a <= b < start@.len() ==> #[trigger] start@[a] <= #[trigger] start@[b],
            forall|m: int| 0 <= m < nn ==> #[trigger] start@[m + 1] == start@[m] + occurrences(all, m as u32),
            forall|m: int| 0 <= m < nn ==> #[trigger] fill@[m] == start@[m] + occurrences(all.take(p as int), m as u32),
            forall|m: int| 0 <= m < nn ==> #[trigger] order@.subrange(start@[m] as int, fill@[m] as int) == rows_with(all.take(p as int), m as u32),
        decreases all.len() - p,
    {
        let l = keys[p];
        let li = l as usize;
        let ghost before = order@;
        let ghost f = fill@;
        proof {
            assert(all.take(p + 1).drop_last() =~= all.take(p as int));
            lemma_occurrences_prefix(all, p + 1, l);
            assert(fill@[li as int] < start@[li + 1]);
            assert(start@[li + 1] <= start@[nn as int]);
        }
        let at = fill[li];
        order.set(at as usize, p as u32);
        fill.set(li, at + 1);
        proof {
            assert forall|m: int| 0 <= m < nn implies #[trigger] order@.subrange(start@[m] as int, fill@[m] as int)
                == rows_with(all.take(p + 1), m as u32) by {
                lemma_occurrences_prefix(all, p as int, m as u32);
                assert(all.take(p + 1).last() == l);
                if m == li {
                    assert(rows_with(all.take(p + 1), m as u32) =~= rows_with(all.take(p as int), m as u32).push(p as u32));
                    assert(order@.subrange(start@[m] as int, fill@[m] as int) =~= before.subrange(start@[m] as int, f[m] as int).push(p as u32));
                } else {
                    assert(rows_with(all.take(p + 1), m as u32) =~= rows_with(all.take(p as int), m as u32));
                    assert(fill@[m] == f[m]);
                    assert(f[m] == start@[m] + occurrences(all.take(p as int), m as u32));
                    assert(start@[m + 1] == start@[m] + occurrences(all, m as u32));
                    assert(f[m] <= start@[m + 1]);
                    assert(order@ == before.update(at as int, p as u32));
                    if m < li {
                        assert(start@[m + 1] <= start@[li as int]);
                    } else {
                        assert(start@[li + 1] <= start@[m]);
                    }
                    assert(start@[m + 1] <= start@[nn as int]);
                    assert(order@.subrange(start@[m] as int, fill@[m] as int) =~= before.subrange(start@[m] as int, f[m] as int));
                }
            }
        }
        p = p + 1;
    }
    proof {
        assert(all.take(p as int) =~= all);
        assert forall|k: int| 0 <= k < nn implies #[trigger] order@.subrange(start@[k] as int, start@[k + 1] as int) == rows_with(all, k as u32) by {
            assert(fill@[k] == start@[k] + occurrences(all, k as u32));
            assert(start@[k + 1] == start@[k] + occurrences(all, k as u32));
        }
    }
    (start, order)
}

/// Whether `s` never decreases.
pub open spec fn ascending(s: Seq<u32>) -> bool {
    forall|i: int, j: int| 0 <= i < j < s.len() ==> #[trigger] s[i] <= #[trigger] s[j]
}

/// `<=` on `u32`, as a relation.
pub open spec fn leq_u32() -> spec_fn(u32, u32) -> bool {
    |a: u32, b: u32| a <= b
}

/// An ascending sequence is sorted by `<=`, and `<=` on `u32` is a total order.
pub proof fn lemma_ascending_sorted(s: Seq<u32>)
    requires
        ascending(s),
    ensures
        sorted_by(s, leq_u32()),
        total_ordering(leq_u32()),
{
}

/// Row numbers are below the number of rows.
pub proof fn lemma_rows_with_bounded(keys: Seq<u32>, k: u32)
    ensures
        forall|j: int| 0 <= j < rows_with(keys, k).len() ==> #[trigger] rows_with(keys, k)[j] < keys.len(),
    decreases keys.len(),
{
    if keys.len() > 0 {
        lemma_rows_with_bounded(keys.drop_last(), k);
        let rest = rows_with(keys.drop_last(), k);
        let tail: Seq<u32> = if keys.last() == k { seq![(keys.len() - 1) as u32] } else { Seq::empty() };
        assert(rows_with(keys, k) == rest + tail);
        assert forall|j: int| 0 <= j < rows_with(keys, k).len() implies #[trigger] rows_with(keys, k)[j] < keys.len() by {
            if j < rest.len() {
                assert(rows_with(keys, k)[j] == rest[j]);
            } else {
                assert(rows_with(keys, k)[j] == tail[j - rest.len()]);
            }
        }
    }
}

/// Merge two ascending lists into one.
fn merge_ascending(left: Vec<u32>, right: Vec<u32>) -> (r: Vec<u32>)
    requires
        ascending(left@),
        ascending(right@),
    ensures
        ascending(r@),
        r@.to_multiset() == left@.to_multiset().add(right@.to_multiset()),
{
    broadcast use vstd::seq_lib::group_to_multiset_ensures;
    broadcast use vstd::multiset::group_multiset_axioms;

    let mut out: Vec<u32> = Vec::new();
    let mut i: usize = 0;
    let mut j: usize = 0;
    proof {
        assert(left@.take(0) =~= Seq::<u32>::empty());
        assert(right@.take(0) =~= Seq::<u32>::empty());
        assert(out@.to_multiset() =~= left@.take(0).to_multiset().add(right@.take(0).to_multiset()));
    }
    while i < left.len() || j < right.len()
        invariant
            i <= left.len(),
            j <= right.len(),
            ascending(left@),
            ascending(right@),
            ascending(out@),
            out@.to_multiset() == left@.take(i as int).to_multiset().add(right@.take(j as int).to_multiset()),
            out@.len() > 0 ==> (forall|q: int| i <= q < left.len() ==> out@.last() <= #[trigger] left@[q]),
            out@.len() > 0 ==> (forall|q: int| j <= q < right.len() ==> out@.last() <= #[trigger] right@[q]),
        decreases left.len() - i + right.len() - j,
    {
        let ghost o = out@;
        if j >= right.len() || (i < left.len() && left[i] <= right[j]) {
            let x = left[i];
            out.push(x);
            proof {
                assert(left@.take(i + 1) =~= left@.take(i as int).push(x));
                assert(out@ =~= o.push(x));
                vstd::seq_lib::to_multiset_build(o, x);
                assert(o.push(x).to_multiset() =~= o.to_multiset().insert(x));
                vstd::seq_lib::to_multiset_build(left@.take(i as int), x);
                assert(left@.take(i as int).push(x).to_multiset() =~= left@.take(i as int).to_multiset().insert(x));
                assert(out@.to_multiset() =~= left@.take(i + 1).to_multiset().add(right@.take(j as int).to_multiset()));
                assert forall|q: int| i + 1 <= q < left.len() implies out@.last() <= #[trigger] left@[q] by {
                    assert(left@[i as int] <= left@[q]);
                }
                assert forall|q: int| j <= q < right.len() implies out@.last() <= #[trigger] right@[q] by {
                    if q > j {
                        assert(right@[j as int] <= right@[q]);
                    }
                }
                assert forall|a: int, b: int| 0 <= a < b < out@.len() implies #[trigger] out@[a] <= #[trigger] out@[b] by {
                    if b == o.len() && a < o.len() - 1 {
                        assert(o[a] <= o[o.len() - 1]);
                    }
                }
            }
            i = i + 1;
        } else {
            let x = right[j];
            out.push(x);
            proof {
                assert(right@.take(j + 1) =~= right@.take(j as int).push(x));
                assert(out@ =~= o.push(x));
                vstd::seq_lib::to_multiset_build(o, x);
                assert(o.push(x).to_multiset() =~= o.to_multiset().insert(x));
                vstd::seq_lib::to_multiset_build(right@.take(j as int), x);
                assert(right@.take(j as int).push(x).to_multiset() =~= right@.take(j as int).to_multiset().insert(x));
                assert(out@.to_multiset() =~= left@.take(i as int).to_multiset().add(right@.take(j + 1).to_multiset()));
                assert forall|q: int| j + 1 <= q < right.len() implies out@.last() <= #[trigger] right@[q] by {
                    assert(right@[j as int] <= right@[q]);
                }
                assert forall|q: int| i <= q < left.len() implies out@.last() <= #[trigger] left@[q] by {
                    if q > i {
                        assert(left@[i as int] <= left@[q]);
                    }
                }
                assert forall|a: int, b: int| 0 <= a < b < out@.len() implies #[trigger] out@[a] <= #[trigger] out@[b] by {
                    if b == o.len() && a < o.len() - 1 {
                        assert(o[a] <= o[o.len() - 1]);
                    }
                }
            }
            j = j + 1;
        }
    }
    proof {
        assert(left@.take(i as int) =~= left@);
        assert(right@.take(j as int) =~= right@);
    }
    out
}

/// The numbers of `v[lo..hi]`, ascending.
pub fn sort_ascending(v: &Vec<u32>, lo: usize, hi: usize) -> (r: Vec<u32>)
    requires
        lo <= hi <= v.len(),
    ensures
        ascending(r@),
        r@.to_multiset() == v@.subrange(lo as int, hi as int).to_multiset(),
    decreases hi - lo,
{
    broadcast use vstd::seq_lib::group_to_multiset_ensures;

    if hi - lo == 0 {
        proof {
            assert(v@.subrange(lo as int, hi as int) =~= Seq::<u32>::empty());
        }
        Vec::new()
    } else if hi - lo == 1 {
        let mut r: Vec<u32> = Vec::new();
        r.push(v[lo]);
        proof {
            assert(v@.subrange(lo as int, hi as int) =~= r@);
        }
        r
    } else {
        let mid = lo + (hi - lo) / 2;
        let left = sort_ascending(v, lo, mid);
        let right = sort_ascending(v, mid, hi);
        let r = merge_ascending(left, right);
        proof {
            assert(v@.subrange(lo as int, hi as int) =~= v@.subrange(lo as int, mid as int) + v@.subrange(mid as int, hi as int));
            lemma_multiset_commutative(v@.subrange(lo as int, mid as int), v@.subrange(mid as int, hi as int));
        }
        r
    }
}

} // verus!
