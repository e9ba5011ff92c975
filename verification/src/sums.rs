//! Prefix sums over size vectors.
//!
//! Group boundaries are prefix sums of the requested sizes; the specs here
//! name those sums and the executable total guards against overflow.

use vstd::prelude::*;

verus! {

/// Sum of the first `n` entries of `s`.
pub open spec fn sum_prefix(s: Seq<usize>, n: int) -> int
    decreases n,
{
    if n <= 0 {
        0
    } else {
        sum_prefix(s, n - 1) + s[n - 1]
    }
}

/// Sum of all entries of `s`.
pub open spec fn sum_all(s: Seq<usize>) -> int {
    sum_prefix(s, s.len() as int)
}

/// Prefix sums of non-negative entries never decrease.
pub proof fn lemma_sum_prefix_monotone(s: Seq<usize>, i: int, j: int)
    requires
        0 <= i <= j <= s.len(),
    ensures
        sum_prefix(s, i) <= sum_prefix(s, j),
    decreases j - i,
{
    if i < j {
        lemma_sum_prefix_monotone(s, i, j - 1);
    }
}

/// Every prefix sum is non-negative.
pub proof fn lemma_sum_prefix_nonneg(s: Seq<usize>, i: int)
    requires
        0 <= i <= s.len(),
    ensures
        sum_prefix(s, i) >= 0,
{
    lemma_sum_prefix_monotone(s, 0, i);
}

/// Prefix sums read only the entries below the cut.
pub proof fn lemma_sum_prefix_agree(s1: Seq<usize>, s2: Seq<usize>, n: int)
    requires
        0 <= n <= s1.len(),
        n <= s2.len(),
        forall|i: int| 0 <= i < n ==> s1[i] == s2[i],
    ensures
        sum_prefix(s1, n) == sum_prefix(s2, n),
    decreases n,
{
    if n > 0 {
        lemma_sum_prefix_agree(s1, s2, n - 1);
    }
}

/// Appending an entry extends the prefix sums by exactly that entry.
pub proof fn lemma_sum_prefix_push(s: Seq<usize>, x: usize)
    ensures
        sum_prefix(s.push(x), s.len() as int) == sum_prefix(s, s.len() as int),
        sum_prefix(s.push(x), s.len() as int + 1) == sum_prefix(s, s.len() as int) + x,
{
    lemma_sum_prefix_agree(s, s.push(x), s.len() as int);
}

/// Total of a size vector, or `None` when it does not fit in `usize`.
pub fn total_of(sizes: &[usize]) -> (t: Option<usize>)
    ensures
        t matches Some(v) ==> v == sum_all(sizes@),
        t is None ==> sum_all(sizes@) > usize::MAX,
{
    let mut acc: usize = 0;
    let mut i: usize = 0;
    while i < sizes.len()
        invariant
            0 <= i <= sizes@.len(),
            acc == sum_prefix(sizes@, i as int),
        decreases sizes@.len() - i,
    {
        acc = match acc.checked_add(sizes[i]) {
            Some(a) => a,
            None => {
                proof {
                    lemma_sum_prefix_monotone(sizes@, i + 1, sizes@.len() as int);
                }
                return None;
            },
        };
        i = i + 1;
    }
    Some(acc)
}

} // verus!
