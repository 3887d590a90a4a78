//! Empirical distribution functions over pooled integer samples.
//!
//! A point of an empirical CDF is `(value, at_most)`: the probability at
//! `value` is `at_most / n`, where `n` is the number of samples.
use vstd::multiset::Multiset;
use vstd::prelude::*;

verus! {

/// Number of elements of `m` that are at most `v`.
pub open spec fn count_at_most(m: Multiset<usize>, v: usize) -> nat {
    m.filter(|e: usize| e <= v).len()
}

/// `s` is sorted in ascending order.
pub open spec fn ascending(s: Seq<usize>) -> bool {
    forall|i: int, j: int| 0 <= i <= j < s.len() ==> s[i] <= s[j]
}

/// Some point of `r` is at value `v`.
pub open spec fn has_point(r: Seq<(usize, usize)>, v: usize) -> bool {
    exists|i: int| 0 <= i < r.len() && #[trigger] r[i].0 == v
}

/// `r` is the empirical CDF of the samples `x`: one point per distinct
/// value, in strictly ascending order of value, each carrying the number of
/// samples at or below it.
pub open spec fn is_cdf_of(x: Seq<usize>, r: Seq<(usize, usize)>) -> bool {
    &&& forall|i: int, j: int| 0 <= i < j < r.len() ==> r[i].0 < r[j].0
    &&& forall|i: int| 0 <= i < r.len() ==> x.contains(#[trigger] r[i].0)
    &&& forall|k: int| 0 <= k < x.len() ==> has_point(r, #[trigger] x[k])
    &&& forall|i: int| 0 <= i < r.len() ==> #[trigger] r[i].1 == count_at_most(x.to_multiset(), r[i].0)
}

/// Relies on slice::sort_unstable: the slice is sorted in ascending order,
/// and holds the same elements as before.
#[verifier::external_body]
fn sort_ascending(v: &mut Vec<usize>)
    ensures
        final(v)@.to_multiset() == old(v)@.to_multiset(),
        ascending(final(v)@),
{
    v.sort_unstable();
}

/// In an ascending sequence, the elements at most `s[i - 1]` are exactly the
/// first `i`, when `s[i]` (if any) is larger.
proof fn lemma_prefix_count(s: Seq<usize>, i: int)
    requires
        ascending(s),
        0 < i <= s.len(),
        i < s.len() ==> s[i - 1] < s[i],
    ensures
        count_at_most(s.to_multiset(), s[i - 1]) == i,
{
    broadcast use vstd::seq_lib::group_to_multiset_ensures;
    broadcast use vstd::multiset::group_multiset_axioms;

    let v = s[i - 1];
    let pre = s.subrange(0, i);
    let post = s.subrange(i, s.len() as int);
    assert(s =~= pre + post);
    vstd::seq_lib::lemma_multiset_commutative(pre, post);
    let m = s.to_multiset().filter(|e: usize| e <= v);
    assert forall|e: usize| #[trigger] m.count(e) == pre.to_multiset().count(e) by {
        if e <= v {
            if post.to_multiset().count(e) > 0 {
                let k = choose|k: int| 0 <= k < post.len() && post[k] == e;
                assert(s[i + k] == e);
            }
        } else {
            if pre.to_multiset().count(e) > 0 {
                let k = choose|k: int| 0 <= k < pre.len() && pre[k] == e;
                assert(s[k] == e);
            }
        }
    }
    assert(m =~= pre.to_multiset());
}

/// The empirical CDF of `x`: for each distinct value, in ascending order,
/// the value and the number of samples at or below it. Dividing the count by
/// `x.len()` gives the cumulative probability; the last point's count is
/// always `x.len()`. Empty input gives an empty result.
pub fn cdf(x: &[usize]) -> (r: Vec<(usize, usize)>)
    ensures
        is_cdf_of(x@, r@),
        x@.len() == 0 ==> r@.len() == 0,
        x@.len() > 0 ==> r@.len() > 0 && r@.last().1 == x@.len(),
{
    let mut sorted: Vec<usize> = Vec::new();
    let mut c: usize = 0;
    while c < x.len()
        invariant
            c <= x@.len(),
            sorted@ == x@.subrange(0, c as int),
        decreases x@.len() - c,
    {
        sorted.push(x[c]);
        c = c + 1;
    }
    assert(sorted@ =~= x@);
    sort_ascending(&mut sorted);
    let ghost s = sorted@;
    let n = sorted.len();
    let mut r: Vec<(usize, usize)> = Vec::new();
    proof {
        broadcast use vstd::seq_lib::group_to_multiset_ensures;
        assert(s.to_multiset().len() == x@.to_multiset().len());
        assert(s.len() == x@.len());
    }
    if n == 0 {
        return r;
    }
    let mut previous = sorted[0];
    let mut i: usize = 1;
    while i < n
        invariant
            s == sorted@,
            n == s.len(),
            ascending(s),
            s.to_multiset() == x@.to_multiset(),
            1 <= i <= n,
            previous == s[i - 1],
            forall|a: int, b: int| 0 <= a < b < r@.len() ==> r@[a].0 < r@[b].0,
            forall|a: int| 0 <= a < r@.len() ==> #[trigger] r@[a].0 < previous,
            forall|a: int| 0 <= a < r@.len() ==> s.contains(#[trigger] r@[a].0),
            forall|k: int| #![trigger s[k]] 0 <= k < i && s[k] < previous ==> exists|a: int| 0 <= a < r@.len() && #[trigger] r@[a].0 == s[k],
            forall|a: int| 0 <= a < r@.len() ==> #[trigger] r@[a].1 == count_at_most(s.to_multiset(), r@[a].0),
        decreases n - i,
    {
        if sorted[i] != previous {
            proof {
                lemma_prefix_count(s, i as int);
            }
            let ghost old_r = r@;
            let ghost old_previous = previous;
            r.push((previous, i));
            previous = sorted[i];
            assert forall|k: int| #![trigger s[k]] 0 <= k < i + 1 && s[k] < previous implies exists|a: int| 0 <= a < r@.len() && #[trigger] r@[a].0 == s[k] by {
                if s[k] < old_previous {
                    let a = choose|a: int| 0 <= a < old_r.len() && #[trigger] old_r[a].0 == s[k];
                    assert(r@[a].0 == s[k]);
                } else {
                    assert(r@[r@.len() - 1].0 == s[k]);
                }
            }
        }
        i = i + 1;
    }
    proof {
        lemma_prefix_count(s, n as int);
    }
    let ghost r0 = r@;
    r.push((previous, n));
    proof {
        broadcast use vstd::seq_lib::group_to_multiset_ensures;
        assert forall|k: int| 0 <= k < x@.len() implies has_point(r@, #[trigger] x@[k]) by {
            assert(x@.to_multiset().count(x@[k]) > 0);
            assert(s.contains(x@[k]));
            let j = choose|j: int| 0 <= j < s.len() && s[j] == x@[k];
            assert(s[j] <= s[n - 1]);
            if s[j] == previous {
                assert(r@[r@.len() - 1].0 == x@[k]);
            } else {
                assert(s[j] < previous);
                let a = choose|a: int| 0 <= a < r0.len() && #[trigger] r0[a].0 == s[j];
                assert(r@[a].0 == x@[k]);
            }
        }
        assert forall|a: int| 0 <= a < r@.len() implies x@.contains(#[trigger] r@[a].0) by {
            assert(s.contains(r@[a].0));
            let j = choose|j: int| 0 <= j < s.len() && s[j] == r@[a].0;
            assert(s.to_multiset().count(s[j]) > 0);
        }
        assert forall|a: int, b: int| 0 <= a < b < r@.len() implies r@[a].0 < r@[b].0 by {
            if b == r@.len() - 1 {
                assert(r0[a].0 < previous);
            }
        }
        assert forall|a: int| 0 <= a < r@.len() implies #[trigger] r@[a].1 == count_at_most(x@.to_multiset(), r@[a].0) by {
            if a < r0.len() {
                assert(r0[a] == r@[a]);
            }
        }
    }
    r
}

/// Counting more values never gives fewer samples: a value present in the
/// samples adds at least itself.
proof fn lemma_count_grows(m: Multiset<usize>, a: usize, b: usize)
    requires
        a < b,
        m.count(b) > 0,
    ensures
        count_at_most(m, a) < count_at_most(m, b),
{
    broadcast use vstd::multiset::group_multiset_axioms;

    let low = m.filter(|e: usize| e <= a);
    let high = m.filter(|e: usize| e <= b);
    let band = m.filter(|e: usize| a < e && e <= b);
    assert(high =~= low.add(band));
    assert(band.count(b) > 0);
}

/// When every sample is at most `v`, all of them count at `v`.
proof fn lemma_count_all(x: Seq<usize>, v: usize)
    requires
        forall|k: int| 0 <= k < x.len() ==> #[trigger] x[k] <= v,
    ensures
        count_at_most(x.to_multiset(), v) == x.len(),
{
    broadcast use vstd::seq_lib::group_to_multiset_ensures;
    broadcast use vstd::multiset::group_multiset_axioms;

    let m = x.to_multiset();
    let f = m.filter(|e: usize| e <= v);
    assert forall|e: usize| #[trigger] f.count(e) == m.count(e) by {
        if m.count(e) > 0 {
            assert(x.contains(e));
        }
    }
    assert(f =~= m);
}

/// For any non-empty sample, the CDF is increasing in value and in
/// cumulative count alike, and its last point counts every sample, that is,
/// has probability one.
pub proof fn lemma_cdf_monotone_ends_at_one(x: Seq<usize>, r: Seq<(usize, usize)>)
    requires
        is_cdf_of(x, r),
        x.len() > 0,
    ensures
        r.len() > 0,
        forall|i: int, j: int| 0 <= i < j < r.len() ==> r[i].0 < r[j].0 && r[i].1 < r[j].1,
        r.last().1 == x.len(),
{
    broadcast use vstd::seq_lib::group_to_multiset_ensures;

    assert(has_point(r, x[0]));
    assert forall|i: int, j: int| 0 <= i < j < r.len() implies r[i].0 < r[j].0 && r[i].1 < r[j].1 by {
        assert(x.contains(r[j].0));
        lemma_count_grows(x.to_multiset(), r[i].0, r[j].0);
    }
    let last = r.last().0;
    assert forall|k: int| 0 <= k < x.len() implies #[trigger] x[k] <= last by {
        assert(has_point(r, x[k]));
        let i = choose|i: int| 0 <= i < r.len() && #[trigger] r[i].0 == x[k];
        if i < r.len() - 1 {
            assert(r[i].0 < r[r.len() - 1].0);
        }
    }
    lemma_count_all(x, last);
    assert(r[r.len() - 1].1 == count_at_most(x.to_multiset(), last));
}

/// The CDF of an empty sample is empty.
pub proof fn lemma_cdf_of_empty(r: Seq<(usize, usize)>)
    requires
        is_cdf_of(Seq::empty(), r),
    ensures
        r.len() == 0,
{
    if r.len() > 0 {
        assert(Seq::<usize>::empty().contains(r[0].0));
    }
}

/// `c` never decreases.
pub open spec fn non_decreasing(c: Seq<usize>) -> bool {
    forall|i: int, j: int| 0 <= i <= j < c.len() ==> c[i] <= c[j]
}

/// The probability mass function, as counts, of a sequence of cumulative
/// counts: the first difference, with the first entry kept as it is.
pub fn pmf_from_cdf(cdf: &[usize]) -> (pmf: Vec<usize>)
    requires
        non_decreasing(cdf@),
    ensures
        pmf@.len() == cdf@.len(),
        cdf@.len() > 0 ==> pmf@[0] == cdf@[0],
        forall|k: int| 0 < k < cdf@.len() ==> #[trigger] pmf@[k] == cdf@[k] - cdf@[k - 1],
{
    let mut pmf: Vec<usize> = Vec::new();
    let mut k: usize = 0;
    while k < cdf.len()
        invariant
            non_decreasing(cdf@),
            k <= cdf@.len(),
            pmf@.len() == k,
            k > 0 ==> pmf@[0] == cdf@[0],
            forall|j: int| 0 < j < k ==> #[trigger] pmf@[j] == cdf@[j] - cdf@[j - 1],
        decreases cdf@.len() - k,
    {
        if k == 0 {
            pmf.push(cdf[k]);
        } else {
            pmf.push(cdf[k] - cdf[k - 1]);
        }
        k = k + 1;
    }
    pmf
}

} // verus!
