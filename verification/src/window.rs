//! Reading the window: the histogram of all active buckets, and the percentile
//! of a histogram.

use vstd::prelude::*;

use crate::bins::bin_to_latency_ms;
use crate::bucket::{Bucket, BucketView};
use crate::config::Layout;
use crate::hist::{counts, merge, new_hist, no_counts, sum};
use crate::rank::{percentile_rank, rank_of_percentile};

verus! {

/// A bucket of the second `epoch` belongs to the window that ends at `now`. One
/// of a later second belongs to it too.
pub open spec fn is_active(epoch: u64, now: u64, window: u64) -> bool {
    now - epoch <= window
}

/// The counts that a bucket adds to the window.
pub open spec fn bucket_hist(b: BucketView, now: u64, window: u64, bins: nat) -> Seq<nat> {
    if is_active(b.epoch, now, window) {
        counts(b.hist)
    } else {
        no_counts(bins)
    }
}

/// The counts of the active buckets of a stripe.
pub open spec fn stripe_hist(stripe: Seq<BucketView>, now: u64, window: u64, bins: nat) -> Seq<nat>
    decreases stripe.len(),
{
    if stripe.len() == 0 {
        no_counts(bins)
    } else {
        merge(
            stripe_hist(stripe.drop_last(), now, window, bins),
            bucket_hist(stripe.last(), now, window, bins),
        )
    }
}

/// The counts of the active buckets of all stripes.
pub open spec fn window_hist(
    stripes: Seq<Seq<BucketView>>,
    now: u64,
    window: u64,
    bins: nat,
) -> Seq<nat>
    decreases stripes.len(),
{
    if stripes.len() == 0 {
        no_counts(bins)
    } else {
        merge(
            window_hist(stripes.drop_last(), now, window, bins),
            stripe_hist(stripes.last(), now, window, bins),
        )
    }
}

/// The bin that holds the observation of a rank: the earlier bins hold fewer
/// observations than the rank, together with this one they reach it.
pub open spec fn holds_rank(hist: Seq<nat>, rank: nat, bin: int) -> bool {
    0 <= bin < hist.len() && sum(hist.take(bin)) < rank <= sum(hist.take(bin + 1))
}

/// The latency of percentile `p` of a histogram; zero for an empty histogram and
/// for percentiles above the ninety-ninth.
pub open spec fn percentile(layout: Layout, hist: Seq<nat>, p: nat) -> nat {
    if p > 99 || sum(hist) == 0 {
        0
    } else {
        layout.latency_of(
            (choose|bin: int| holds_rank(hist, percentile_rank(sum(hist), p), bin)) as nat,
        )
    }
}

/// All histograms of a stripe have the same number of bins.
pub open spec fn same_bins(stripe: Seq<BucketView>, bins: nat) -> bool {
    forall|i: int| 0 <= i < stripe.len() ==> (#[trigger] stripe[i]).hist.len() == bins
}

pub proof fn lemma_stripe_hist_len(stripe: Seq<BucketView>, now: u64, window: u64, bins: nat)
    ensures
        stripe_hist(stripe, now, window, bins).len() == bins,
    decreases stripe.len(),
{
    if stripe.len() > 0 {
        lemma_stripe_hist_len(stripe.drop_last(), now, window, bins);
    }
}

pub proof fn lemma_window_hist_len(
    stripes: Seq<Seq<BucketView>>,
    now: u64,
    window: u64,
    bins: nat,
)
    ensures
        window_hist(stripes, now, window, bins).len() == bins,
    decreases stripes.len(),
{
    if stripes.len() > 0 {
        lemma_window_hist_len(stripes.drop_last(), now, window, bins);
    }
}

/// At most one bin holds the observation of a rank.
pub proof fn lemma_rank_bin_unique(hist: Seq<nat>, rank: nat, a: int, b: int)
    requires
        holds_rank(hist, rank, a),
        holds_rank(hist, rank, b),
    ensures
        a == b,
{
    if a < b {
        crate::hist::lemma_sum_take(hist, a + 1, b);
    } else if b < a {
        crate::hist::lemma_sum_take(hist, b + 1, a);
    }
}

/// Every rank up to the number of observations has its bin.
pub proof fn lemma_rank_bin_exists(hist: Seq<nat>, rank: nat) -> (bin: int)
    requires
        0 < rank <= sum(hist),
    ensures
        holds_rank(hist, rank, bin),
    decreases hist.len(),
{
    let init = hist.drop_last();
    if rank <= sum(init) {
        let bin = lemma_rank_bin_exists(init, rank);
        assert(init.take(bin) =~= hist.take(bin));
        assert(init.take(bin + 1) =~= hist.take(bin + 1));
        bin
    } else {
        let bin = hist.len() - 1;
        assert(hist.take(bin) =~= init);
        assert(hist.take(bin + 1) =~= hist);
        bin
    }
}

/// The percentile of a histogram with observations is the latency of the bin
/// that holds its rank.
pub proof fn lemma_percentile(layout: Layout, hist: Seq<nat>, p: nat, bin: int)
    requires
        p <= 99,
        holds_rank(hist, percentile_rank(sum(hist), p), bin),
    ensures
        percentile(layout, hist, p) == layout.latency_of(bin as nat),
{
    let rank = percentile_rank(sum(hist), p);
    crate::hist::lemma_sum_take(hist, bin, bin + 1);
    let chosen = choose|b: int| holds_rank(hist, rank, b);
    lemma_rank_bin_unique(hist, rank, bin, chosen);
}

/// The latency at a rank of a histogram: that of the bin that holds the rank, or
/// the maximum where the rank is beyond the last observation.
pub fn latency_at_rank(layout: &Layout, hist: &Vec<u64>, rank: u64) -> (ms: u64)
    requires
        layout.wf(),
        hist@.len() == layout.spec_bins(),
        sum(counts(hist@)) <= u64::MAX,
        rank > 0,
    ensures
        rank <= sum(counts(hist@)) ==> exists|bin: int|
            holds_rank(counts(hist@), rank as nat, bin) && ms == layout.latency_of(bin as nat),
        rank > sum(counts(hist@)) ==> ms == layout.spec_max_latency_ms(),
{
    let ghost all = counts(hist@);
    let mut cumulative: u64 = 0;
    let mut i: usize = 0;
    while i < hist.len()
        invariant
            i <= hist@.len(),
            layout.wf(),
            hist@.len() == layout.spec_bins(),
            all == counts(hist@),
            cumulative == sum(all.take(i as int)),
            cumulative < rank,
            sum(all) <= u64::MAX,
        decreases hist@.len() - i,
    {
        proof {
            assert(all.take(i + 1).drop_last() =~= all.take(i as int));
            crate::hist::lemma_sum_take(all, i as int, i + 1);
        }
        cumulative = cumulative + hist[i];
        if cumulative >= rank {
            assert(holds_rank(all, rank as nat, i as int));
            proof {
                crate::hist::lemma_sum_take(all, i + 1, i + 1);
            }
            return bin_to_latency_ms(layout, i);
        }
        i = i + 1;
    }
    assert(all.take(i as int) =~= all);
    layout.max_latency_ms()
}

/// The percentile of a histogram.
pub fn percentile_of(layout: &Layout, hist: &Vec<u64>, total: u64, p: u8) -> (ms: u64)
    requires
        layout.wf(),
        hist@.len() == layout.spec_bins(),
        total == sum(counts(hist@)),
    ensures
        ms == percentile(*layout, counts(hist@), p as nat),
{
    if p > 99 || total == 0 {
        return 0;
    }
    let rank = rank_of_percentile(total, p);
    let ms = latency_at_rank(layout, hist, rank);
    proof {
        let bin = choose|bin: int|
            holds_rank(counts(hist@), rank as nat, bin) && ms == layout.latency_of(bin as nat);
        lemma_percentile(*layout, counts(hist@), p as nat, bin);
    }
    ms
}

/// Adds a histogram to running totals, unless their sum would be beyond `u64`.
fn add_counts(totals: &mut Vec<u64>, total: &mut u64, hist: &Vec<u64>) -> (done: bool)
    requires
        old(totals)@.len() == hist@.len(),
        *old(total) == sum(counts(old(totals)@)),
    ensures
        done == (sum(merge(counts(old(totals)@), counts(hist@))) <= u64::MAX),
        done ==> counts(final(totals)@) == merge(counts(old(totals)@), counts(hist@)),
        done ==> *final(total) == sum(counts(final(totals)@)),
{
    let ghost start = counts(totals@);
    let ghost goal = merge(start, counts(hist@));
    let mut i: usize = 0;
    while i < hist.len()
        invariant
            i <= hist@.len(),
            start.len() == hist@.len() == totals@.len() == goal.len(),
            start == counts(old(totals)@),
            goal == merge(start, counts(hist@)),
            *total == sum(counts(totals@)),
            forall|j: int| 0 <= j < i ==> totals@[j] == goal[j],
            forall|j: int| i <= j < hist@.len() ==> totals@[j] == start[j],
        decreases hist@.len() - i,
    {
        let count = hist[i];
        let ghost before = counts(totals@);
        proof {
            let after = before.update(i as int, before[i as int] + count as nat);
            crate::hist::lemma_sum_update(before, i as int, before[i as int] + count as nat);
            assert forall|j: int| 0 <= j < after.len() implies #[trigger] after[j] <= goal[j] by {}
            crate::hist::lemma_sum_le(after, goal);
            crate::hist::lemma_bin_le_sum(after, i as int);
        }
        match total.checked_add(count) {
            Some(more) => *total = more,
            None => return false,
        }
        totals[i] = totals[i] + count;
        proof {
            assert(counts(totals@) =~= before.update(i as int, before[i as int] + count as nat));
        }
        i = i + 1;
    }
    assert(counts(totals@) =~= goal);
    true
}

/// Every entry of `a` is at most that of `b`.
pub open spec fn at_most(a: Seq<nat>, b: Seq<nat>) -> bool {
    a.len() == b.len() && forall|i: int| 0 <= i < a.len() ==> #[trigger] a[i] <= b[i]
}

/// The first buckets of a stripe hold no more than the stripe.
proof fn lemma_stripe_prefix(stripe: Seq<BucketView>, n: int, now: u64, window: u64, bins: nat)
    requires
        0 <= n <= stripe.len(),
        same_bins(stripe, bins),
    ensures
        at_most(stripe_hist(stripe.take(n), now, window, bins), stripe_hist(stripe, now, window, bins)),
    decreases stripe.len(),
{
    lemma_stripe_hist_len(stripe.take(n), now, window, bins);
    lemma_stripe_hist_len(stripe, now, window, bins);
    if n < stripe.len() {
        let init = stripe.drop_last();
        assert(init.take(n) =~= stripe.take(n));
        assert(same_bins(init, bins)) by {
            assert forall|i: int| 0 <= i < init.len() implies (#[trigger] init[i]).hist.len() == bins by {
                assert(stripe[i].hist.len() == bins);
            }
        }
        lemma_stripe_prefix(init, n, now, window, bins);
        lemma_stripe_hist_len(init, now, window, bins);
    } else {
        assert(stripe.take(n) =~= stripe);
    }
}

/// The first stripes hold no more than all.
proof fn lemma_window_prefix(
    stripes: Seq<Seq<BucketView>>,
    n: int,
    now: u64,
    window: u64,
    bins: nat,
)
    requires
        0 <= n <= stripes.len(),
    ensures
        at_most(
            window_hist(stripes.take(n), now, window, bins),
            window_hist(stripes, now, window, bins),
        ),
    decreases stripes.len(),
{
    lemma_window_hist_len(stripes.take(n), now, window, bins);
    lemma_window_hist_len(stripes, now, window, bins);
    if n < stripes.len() {
        let init = stripes.drop_last();
        assert(init.take(n) =~= stripes.take(n));
        lemma_window_prefix(init, n, now, window, bins);
        lemma_window_hist_len(init, now, window, bins);
        lemma_stripe_hist_len(stripes.last(), now, window, bins);
    } else {
        assert(stripes.take(n) =~= stripes);
    }
}

/// The counts of the first stripes and of the first buckets of the next one are
/// no more than those of the whole window.
proof fn lemma_partial_window(
    stripes: Seq<Seq<BucketView>>,
    s: int,
    b: int,
    now: u64,
    window: u64,
    bins: nat,
)
    requires
        0 <= s < stripes.len(),
        0 <= b <= stripes[s].len(),
        same_bins(stripes[s], bins),
    ensures
        sum(
            merge(
                window_hist(stripes.take(s), now, window, bins),
                stripe_hist(stripes[s].take(b), now, window, bins),
            ),
        ) <= sum(window_hist(stripes, now, window, bins)),
{
    let head = window_hist(stripes.take(s), now, window, bins);
    let part = stripe_hist(stripes[s].take(b), now, window, bins);
    let next = window_hist(stripes.take(s + 1), now, window, bins);
    let whole = window_hist(stripes, now, window, bins);
    lemma_window_hist_len(stripes.take(s), now, window, bins);
    lemma_window_prefix(stripes, s + 1, now, window, bins);
    lemma_stripe_prefix(stripes[s], b, now, window, bins);
    lemma_stripe_hist_len(stripes[s].take(b), now, window, bins);
    lemma_window_hist_len(stripes, now, window, bins);
    assert(stripes.take(s + 1).drop_last() =~= stripes.take(s));
    assert forall|i: int| 0 <= i < bins implies #[trigger] merge(head, part)[i] <= whole[i] by {
        assert(part[i] <= stripe_hist(stripes[s], now, window, bins)[i]);
        assert(next[i] <= whole[i]);
    }
    crate::hist::lemma_sum_le(merge(head, part), whole);
}

/// Collects the counts of all active buckets and their sum, unless the sum is beyond
/// `u64`.
pub fn collect_window(stripes: &Vec<Vec<Bucket>>, now: u64, window: u64, bins: usize) -> (r: Option<
    (Vec<u64>, u64),
>)
    requires
        forall|s: int|
            0 <= s < stripes@.len() ==> #[trigger] same_bins(stripe_views(stripes@)[s], bins as nat),
    ensures
        match r {
            Some((totals, total)) => {
                &&& counts(totals@) == window_hist(stripe_views(stripes@), now, window, bins as nat)
                &&& total == sum(counts(totals@))
            },
            None => sum(window_hist(stripe_views(stripes@), now, window, bins as nat)) > u64::MAX,
        },
{
    let ghost views = stripe_views(stripes@);
    let ghost n = bins as nat;
    let mut totals: Vec<u64> = new_hist(bins);
    let mut total: u64 = 0;
    proof {
        crate::hist::lemma_sum_no_counts(n);
    }
    let mut s: usize = 0;
    while s < stripes.len()
        invariant
            s <= stripes@.len(),
            views == stripe_views(stripes@),
            n == bins,
            forall|s: int| 0 <= s < stripes@.len() ==> #[trigger] same_bins(views[s], n),
            counts(totals@) == window_hist(views.take(s as int), now, window, n),
            total == sum(counts(totals@)),
        decreases stripes@.len() - s,
    {
        let stripe = &stripes[s];
        let ghost head = window_hist(views.take(s as int), now, window, n);
        let mut b: usize = 0;
        proof {
            lemma_window_hist_len(views.take(s as int), now, window, n);
            assert(merge(head, no_counts(n)) =~= head);
            assert(same_bins(views[s as int], n));
        }
        while b < stripe.len()
            invariant
                s < stripes@.len(),
                b <= stripe@.len(),
                stripe@ == stripes@[s as int]@,
                views == stripe_views(stripes@),
                n == bins,
                same_bins(views[s as int], n),
                    head == window_hist(views.take(s as int), now, window, n),
                head.len() == n,
                counts(totals@) == merge(
                    head,
                    stripe_hist(views[s as int].take(b as int), now, window, n),
                ),
                total == sum(counts(totals@)),
            decreases stripe@.len() - b,
        {
            let bucket = &stripe[b];
            let ghost part = stripe_hist(views[s as int].take(b as int), now, window, n);
            let ghost next = stripe_hist(views[s as int].take(b + 1), now, window, n);
            proof {
                assert(views[s as int][b as int] == bucket@);
                assert(views[s as int].take(b + 1).drop_last() =~= views[s as int].take(b as int));
                lemma_stripe_hist_len(views[s as int].take(b as int), now, window, n);
                lemma_partial_window(views, s as int, b + 1, now, window, n);
                assert(merge(head, next) =~= merge(
                    merge(head, part),
                    bucket_hist(bucket@, now, window, n),
                ));
            }
            if now.saturating_sub(bucket.epoch) <= window {
                if !add_counts(&mut totals, &mut total, &bucket.hist) {
                    return None;
                }
            } else {
                assert(merge(head, next) =~= merge(head, part));
            }
            b = b + 1;
        }
        proof {
            assert(views[s as int].take(b as int) =~= views[s as int]);
            assert(views.take(s + 1).drop_last() =~= views.take(s as int));
        }
        s = s + 1;
    }
    assert(views.take(s as int) =~= views);
    Some((totals, total))
}

/// What a list of buckets holds.
pub open spec fn bucket_views(buckets: Seq<Bucket>) -> Seq<BucketView> {
    buckets.map_values(|b: Bucket| b@)
}

/// What the stripes of a tracker hold.
pub open spec fn stripe_views(stripes: Seq<Vec<Bucket>>) -> Seq<Seq<BucketView>> {
    stripes.map_values(|s: Vec<Bucket>| bucket_views(s@))
}

} // verus!
