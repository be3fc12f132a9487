//! Histograms as sequences of counts.

use vstd::prelude::*;

verus! {

/// The counts of a stored histogram as numbers.
pub open spec fn counts(hist: Seq<u64>) -> Seq<nat> {
    hist.map_values(|v: u64| v as nat)
}

/// The histogram of `n` bins without observations.
pub open spec fn no_counts(n: nat) -> Seq<nat> {
    Seq::new(n, |i: int| 0nat)
}

/// The stored histogram of `n` bins without observations.
pub open spec fn zeros(n: nat) -> Seq<u64> {
    Seq::new(n, |i: int| 0u64)
}

/// Number of observations in a histogram.
pub open spec fn sum(hist: Seq<nat>) -> nat
    decreases hist.len(),
{
    if hist.len() == 0 {
        0
    } else {
        sum(hist.drop_last()) + hist.last()
    }
}

/// Two histograms taken together.
pub open spec fn merge(a: Seq<nat>, b: Seq<nat>) -> Seq<nat> {
    Seq::new(a.len(), |i: int| a[i] + b[i])
}

/// Makes a histogram of `n` bins without observations.
pub fn new_hist(n: usize) -> (hist: Vec<u64>)
    ensures
        hist@ == zeros(n as nat),
{
    let mut hist: Vec<u64> = Vec::with_capacity(n);
    while hist.len() < n
        invariant
            hist@ == zeros(hist@.len()),
            hist@.len() <= n,
        decreases n - hist@.len(),
    {
        hist.push(0);
    }
    hist
}

pub proof fn lemma_sum_no_counts(n: nat)
    ensures
        sum(no_counts(n)) == 0,
        counts(zeros(n)) == no_counts(n),
    decreases n,
{
    assert(counts(zeros(n)) =~= no_counts(n));
    if n > 0 {
        assert(no_counts(n).drop_last() =~= no_counts((n - 1) as nat));
        lemma_sum_no_counts((n - 1) as nat);
    }
}

/// A histogram without observations has no counts.
pub proof fn lemma_sum_zero(hist: Seq<nat>)
    requires
        sum(hist) == 0,
    ensures
        hist == no_counts(hist.len()),
    decreases hist.len(),
{
    if hist.len() > 0 {
        lemma_sum_zero(hist.drop_last());
        assert forall|i: int| 0 <= i < hist.len() implies hist[i] == 0 by {
            if i < hist.len() - 1 {
                assert(hist[i] == hist.drop_last()[i]);
            }
        }
    }
    assert(hist =~= no_counts(hist.len()));
}

pub proof fn lemma_sum_merge(a: Seq<nat>, b: Seq<nat>)
    requires
        a.len() == b.len(),
    ensures
        sum(merge(a, b)) == sum(a) + sum(b),
    decreases a.len(),
{
    if a.len() > 0 {
        assert(merge(a, b).drop_last() =~= merge(a.drop_last(), b.drop_last()));
        lemma_sum_merge(a.drop_last(), b.drop_last());
    }
}

/// A histogram with larger counts holds more observations.
pub proof fn lemma_sum_le(a: Seq<nat>, b: Seq<nat>)
    requires
        a.len() == b.len(),
        forall|i: int| 0 <= i < a.len() ==> #[trigger] a[i] <= b[i],
    ensures
        sum(a) <= sum(b),
    decreases a.len(),
{
    if a.len() > 0 {
        assert forall|i: int| 0 <= i < a.len() - 1 implies #[trigger] a.drop_last()[i]
            <= b.drop_last()[i] by {
            assert(a[i] <= b[i]);
        }
        lemma_sum_le(a.drop_last(), b.drop_last());
        assert(a[a.len() - 1] <= b[a.len() - 1]);
    }
}

/// One more observation in a bin is one more in the histogram.
pub proof fn lemma_sum_update(a: Seq<nat>, i: int, v: nat)
    requires
        0 <= i < a.len(),
    ensures
        sum(a.update(i, v)) + a[i] == sum(a) + v,
    decreases a.len(),
{
    let b = a.update(i, v);
    if i == a.len() - 1 {
        assert(b.drop_last() =~= a.drop_last());
    } else {
        assert(b.drop_last() =~= a.drop_last().update(i, v));
        lemma_sum_update(a.drop_last(), i, v);
    }
}

/// The first bins of a histogram hold no more than all of it, and each bin no
/// more than the first bins up to it.
pub proof fn lemma_sum_take(a: Seq<nat>, i: int, j: int)
    requires
        0 <= i <= j <= a.len(),
    ensures
        sum(a.take(i)) <= sum(a.take(j)) <= sum(a),
        i < j ==> sum(a.take(i)) + a[j - 1] <= sum(a.take(j)),
    decreases a.len(),
{
    if j < a.len() {
        assert(a.drop_last().take(i) =~= a.take(i));
        assert(a.drop_last().take(j) =~= a.take(j));
        lemma_sum_take(a.drop_last(), i, j);
    } else {
        assert(a.take(j) =~= a);
        if i < j {
            assert(a.drop_last().take(i) =~= a.take(i));
            lemma_sum_take(a.drop_last(), i, j - 1);
            assert(a.drop_last().take(j - 1) =~= a.drop_last());
        }
    }
}

/// A bin holds no more than the histogram.
pub proof fn lemma_bin_le_sum(a: Seq<nat>, i: int)
    requires
        0 <= i < a.len(),
    ensures
        a[i] <= sum(a),
{
    lemma_sum_take(a, i, i + 1);
}

} // verus!
