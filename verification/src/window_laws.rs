//! Laws of the read path: what percentiles say of the observations in the
//! window.

use vstd::prelude::*;

use crate::bucket::BucketView;
use crate::config::{Config, Layout};
use crate::hist::{counts, merge, no_counts, sum, zeros};
use crate::rank::{percentile_rank, ranks_exactly};
use crate::window::{
    bucket_hist, holds_rank, is_active, percentile, same_bins, stripe_hist, window_hist,
};

verus! {

/// The histogram of a list of latencies.
pub open spec fn hist_of(layout: Layout, lats: Seq<nat>) -> Seq<nat>
    decreases lats.len(),
{
    if lats.len() == 0 {
        no_counts(layout.spec_bins())
    } else {
        let hist = hist_of(layout, lats.drop_last());
        let bin = layout.bin_of(lats.last()) as int;
        hist.update(bin, hist[bin] + 1)
    }
}

/// The latencies are in ascending order.
pub open spec fn ascending(lats: Seq<nat>) -> bool {
    forall|i: int, j: int| 0 <= i <= j < lats.len() ==> #[trigger] lats[i] <= #[trigger] lats[j]
}

/// The bin of a percentile of a histogram with observations.
proof fn lemma_percentile_bin(layout: Layout, hist: Seq<nat>, p: nat) -> (bin: int)
    requires
        p <= 99,
        sum(hist) > 0,
    ensures
        holds_rank(hist, percentile_rank(sum(hist), p), bin),
        percentile(layout, hist, p) == layout.latency_of(bin as nat),
{
    crate::rank::law_rank_in_range(sum(hist), p);
    let bin = crate::window::lemma_rank_bin_exists(hist, percentile_rank(sum(hist), p));
    crate::window::lemma_percentile(layout, hist, p, bin);
    bin
}

/// A higher percentile is never a shorter latency.
pub proof fn law_percentiles_are_ordered(layout: Layout, hist: Seq<nat>, p: nat, higher: nat)
    requires
        layout.wf(),
        hist.len() == layout.spec_bins(),
        p <= higher <= 99,
    ensures
        percentile(layout, hist, p) <= percentile(layout, hist, higher),
{
    if sum(hist) > 0 {
        let a = lemma_percentile_bin(layout, hist, p);
        let b = lemma_percentile_bin(layout, hist, higher);
        crate::rank::law_rank_monotone(sum(hist), p, higher);
        if b < a {
            crate::hist::lemma_sum_take(hist, b + 1, a);
        }
        crate::bins::law_latency_monotone(layout, a as nat, b as nat);
    }
}

/// No percentile exceeds the maximum latency.
pub proof fn law_percentile_is_bounded(layout: Layout, hist: Seq<nat>, p: nat)
    requires
        layout.wf(),
        hist.len() == layout.spec_bins(),
    ensures
        percentile(layout, hist, p) <= layout.spec_max_latency_ms(),
{
    if p <= 99 && sum(hist) > 0 {
        let bin = lemma_percentile_bin(layout, hist, p);
        let last = (hist.len() - 1) as nat;
        crate::bins::law_latency_monotone(layout, bin as nat, last);
        crate::bins::law_last_bin_is_maximum(layout);
    }
}

/// Where all observations share a bin, every percentile is the latency of that
/// bin.
pub proof fn law_one_bin_is_every_percentile(layout: Layout, hist: Seq<nat>, bin: int, p: nat)
    requires
        layout.wf(),
        hist.len() == layout.spec_bins(),
        0 <= bin < hist.len(),
        hist[bin] > 0,
        forall|i: int| 0 <= i < hist.len() && i != bin ==> #[trigger] hist[i] == 0,
        p <= 99,
    ensures
        percentile(layout, hist, p) == layout.latency_of(bin as nat),
{
    crate::hist::lemma_bin_le_sum(hist, bin);
    let found = lemma_percentile_bin(layout, hist, p);
    assert(hist.take(found + 1).drop_last() =~= hist.take(found));
    assert(hist[found] > 0);
}

proof fn lemma_hist_of_len(layout: Layout, lats: Seq<nat>)
    requires
        layout.wf(),
    ensures
        hist_of(layout, lats).len() == layout.spec_bins(),
    decreases lats.len(),
{
    if lats.len() > 0 {
        lemma_hist_of_len(layout, lats.drop_last());
        crate::bins::law_bin_monotone(layout, lats.last(), lats.last());
    }
}

/// A histogram counts every latency once.
pub proof fn law_histogram_counts_every_latency(layout: Layout, lats: Seq<nat>)
    requires
        layout.wf(),
    ensures
        hist_of(layout, lats).len() == layout.spec_bins(),
        sum(hist_of(layout, lats)) == lats.len(),
    decreases lats.len(),
{
    lemma_hist_of_len(layout, lats);
    if lats.len() == 0 {
        crate::hist::lemma_sum_no_counts(layout.spec_bins());
    } else {
        let hist = hist_of(layout, lats.drop_last());
        let bin = layout.bin_of(lats.last()) as int;
        law_histogram_counts_every_latency(layout, lats.drop_last());
        crate::bins::law_bin_monotone(layout, lats.last(), lats.last());
        crate::hist::lemma_sum_update(hist, bin, hist[bin] + 1);
    }
}

proof fn lemma_all_in_bins(layout: Layout, lats: Seq<nat>, bin: int)
    requires
        layout.wf(),
        0 <= bin <= layout.spec_bins(),
        forall|i: int| 0 <= i < lats.len() ==> layout.bin_of(#[trigger] lats[i]) < bin,
    ensures
        sum(hist_of(layout, lats).take(bin)) == lats.len(),
    decreases lats.len(),
{
    lemma_hist_of_len(layout, lats);
    if lats.len() == 0 {
        assert(no_counts(layout.spec_bins()).take(bin) =~= no_counts(bin as nat));
        crate::hist::lemma_sum_no_counts(bin as nat);
    } else {
        let init = lats.drop_last();
        let hist = hist_of(layout, init);
        assert forall|i: int| 0 <= i < init.len() implies layout.bin_of(#[trigger] init[i]) < bin by {
            assert(init[i] == lats[i]);
        }
        lemma_all_in_bins(layout, init, bin);
        lemma_hist_of_len(layout, init);
        assert(lats[lats.len() - 1] == lats.last());
        let b = layout.bin_of(lats.last()) as int;
        assert(hist_of(layout, lats).take(bin) =~= hist.take(bin).update(b, hist.take(bin)[b] + 1));
        crate::hist::lemma_sum_update(hist.take(bin), b, hist.take(bin)[b] + 1);
    }
}

/// In an ascending list, the latencies of the first bins come first, as many as
/// these bins count.
proof fn lemma_prefix_of_bins(layout: Layout, lats: Seq<nat>, bin: int, i: int)
    requires
        layout.wf(),
        ascending(lats),
        0 <= bin <= layout.spec_bins(),
        0 <= i < lats.len(),
    ensures
        i < sum(hist_of(layout, lats).take(bin)) <==> layout.bin_of(lats[i]) < bin,
    decreases lats.len(),
{
    let init = lats.drop_last();
    let last = lats.last();
    let hist = hist_of(layout, init);
    let b = layout.bin_of(last) as int;
    lemma_hist_of_len(layout, init);
    crate::bins::law_bin_monotone(layout, last, last);
    law_histogram_counts_every_latency(layout, init);
    crate::hist::lemma_sum_take(hist, bin, hist.len() as int);
    let now = hist_of(layout, lats).take(bin);
    if b < bin {
        assert(now =~= hist.take(bin).update(b, hist.take(bin)[b] + 1));
        crate::hist::lemma_sum_update(hist.take(bin), b, hist.take(bin)[b] + 1);
        assert(sum(now) == sum(hist.take(bin)) + 1);
    } else {
        assert(now =~= hist.take(bin));
    }
    if b < bin {
        assert forall|j: int| 0 <= j < init.len() implies layout.bin_of(#[trigger] init[j]) < bin by {
            assert(lats[j] <= lats[lats.len() - 1]);
            crate::bins::law_bin_monotone(layout, lats[j], last);
        }
        lemma_all_in_bins(layout, init, bin);
        if i < init.len() {
            assert(init[i] == lats[i]);
        }
    } else if i < init.len() {
        lemma_prefix_of_bins(layout, init, bin, i);
        assert(init[i] == lats[i]);
    }
}

/// The percentile of a list of latencies is what the histogram shows of the
/// latency at the percentile's rank, counted from the shortest.
pub proof fn law_percentile_is_ranked_latency(layout: Layout, lats: Seq<nat>, p: nat)
    requires
        layout.wf(),
        ascending(lats),
        lats.len() > 0,
        p <= 99,
    ensures
        1 <= percentile_rank(lats.len(), p) <= lats.len(),
        percentile(layout, hist_of(layout, lats), p) == layout.latency_of(
            layout.bin_of(lats[percentile_rank(lats.len(), p) - 1]),
        ),
{
    let hist = hist_of(layout, lats);
    law_histogram_counts_every_latency(layout, lats);
    crate::rank::law_rank_in_range(lats.len(), p);
    let bin = lemma_percentile_bin(layout, hist, p);
    let i = percentile_rank(lats.len(), p) - 1;
    lemma_prefix_of_bins(layout, lats, bin, i);
    lemma_prefix_of_bins(layout, lats, bin + 1, i);
}

/// Below the end of the linear range a percentile is less than one bin below the
/// latency at its rank.
pub proof fn law_percentile_is_within_a_bin(layout: Layout, lats: Seq<nat>, p: nat)
    requires
        layout.wf(),
        ascending(lats),
        lats.len() > 0,
        p <= 99,
        lats[percentile_rank(lats.len(), p) - 1] < layout.linear_end_ms(),
    ensures
        ({
            let exact = lats[percentile_rank(lats.len(), p) - 1];
            let read = percentile(layout, hist_of(layout, lats), p);
            read <= exact < read + layout.linear_width_ms()
        }),
{
    law_percentile_is_ranked_latency(layout, lats, p);
    crate::bins::law_linear_resolution(layout, lats[percentile_rank(lats.len(), p) - 1]);
}

/// P50, P90, P95 and P99 are what the histogram shows of the latency that has exactly
/// that share of the others before it, for every number of latencies below `2^53`
/// that the arithmetic ranks exactly.
pub proof fn law_common_percentile_is_exact(layout: Layout, lats: Seq<nat>, p: nat)
    requires
        layout.wf(),
        ascending(lats),
        lats.len() > 0,
        ranks_exactly(lats.len(), p),
    ensures
        0 <= lats.len() * p / 100 < lats.len(),
        percentile(layout, hist_of(layout, lats), p) == layout.latency_of(
            layout.bin_of(lats[(lats.len() * p / 100) as int]),
        ),
{
    law_percentile_is_ranked_latency(layout, lats, p);
    crate::rank::law_common_rank(lats.len(), p);
}

/// Below one second, P50, P90, P95 and P99 are less than ten milliseconds below the
/// exact percentile, with the default histogram and with the compact one, for every
/// number of latencies below `2^53` that the arithmetic ranks exactly.
pub proof fn law_common_percentile_is_within_ten_ms(layout: Layout, lats: Seq<nat>, p: nat)
    requires
        layout == Config::spec_default().layout || layout == Layout::LinearLog,
        ascending(lats),
        lats.len() > 0,
        ranks_exactly(lats.len(), p),
        lats[(lats.len() * p / 100) as int] < 1000,
    ensures
        ({
            let exact = lats[(lats.len() * p / 100) as int];
            let read = percentile(layout, hist_of(layout, lats), p);
            read <= exact < read + 10
        }),
{
    law_common_percentile_is_exact(layout, lats, p);
    crate::bins::law_linear_resolution(layout, lats[(lats.len() * p / 100) as int]);
}

proof fn lemma_hist_of_remove(layout: Layout, lats: Seq<nat>, k: int)
    requires
        layout.wf(),
        0 <= k < lats.len(),
    ensures
        ({
            let rest = hist_of(layout, lats.remove(k));
            let bin = layout.bin_of(lats[k]) as int;
            hist_of(layout, lats) == rest.update(bin, rest[bin] + 1)
        }),
    decreases lats.len(),
{
    if k == lats.len() - 1 {
        assert(lats.remove(k) =~= lats.drop_last());
    } else {
        let init = lats.drop_last();
        assert(lats.remove(k).drop_last() =~= init.remove(k));
        assert(lats.remove(k).last() == lats.last());
        lemma_hist_of_remove(layout, init, k);
        lemma_hist_of_len(layout, init.remove(k));
        assert(init[k] == lats[k]);
        crate::bins::law_bin_monotone(layout, lats[k], lats[k]);
        crate::bins::law_bin_monotone(layout, lats.last(), lats.last());
        let rest = hist_of(layout, lats.remove(k));
        let bin = layout.bin_of(lats[k]) as int;
        assert(hist_of(layout, lats) =~= rest.update(bin, rest[bin] + 1));
    }
}

/// A histogram does not depend on the order of the observations.
pub proof fn law_histogram_ignores_order(layout: Layout, a: Seq<nat>, b: Seq<nat>)
    requires
        layout.wf(),
        a.to_multiset() == b.to_multiset(),
    ensures
        hist_of(layout, a) == hist_of(layout, b),
    decreases b.len(),
{
    broadcast use vstd::seq_lib::group_to_multiset_ensures;

    if b.len() == 0 {
        assert(a.to_multiset().len() == 0);
        assert(a =~= b);
    } else {
        let last = b.last();
        assert(b[b.len() - 1] == last);
        assert(b.contains(last));
        assert(b.to_multiset().count(last) > 0);
        assert(a.contains(last));
        let k = choose|k: int| 0 <= k < a.len() && a[k] == last;
        assert(b.drop_last() =~= b.remove(b.len() - 1));
        assert(a.remove(k).to_multiset() =~= b.drop_last().to_multiset());
        law_histogram_ignores_order(layout, a.remove(k), b.drop_last());
        lemma_hist_of_remove(layout, a, k);
    }
}

/// Two buckets count the same in a window: they are equal in it, or both outside
/// of it.
pub open spec fn same_in_window(a: BucketView, b: BucketView, now: u64, window: u64) -> bool {
    if is_active(a.epoch, now, window) {
        is_active(b.epoch, now, window) && a.hist == b.hist
    } else {
        !is_active(b.epoch, now, window)
    }
}

/// Two stripes count the same in a window, bucket by bucket.
pub open spec fn stripe_same_in_window(
    a: Seq<BucketView>,
    b: Seq<BucketView>,
    now: u64,
    window: u64,
) -> bool {
    a.len() == b.len() && forall|i: int|
        0 <= i < a.len() ==> same_in_window(#[trigger] a[i], b[i], now, window)
}

/// Two stripes add the same to a window, bucket by bucket.
pub open spec fn stripe_adds_same(
    a: Seq<BucketView>,
    b: Seq<BucketView>,
    now: u64,
    window: u64,
    bins: nat,
) -> bool {
    a.len() == b.len() && forall|i: int|
        0 <= i < a.len() ==> bucket_hist(#[trigger] a[i], now, window, bins) == bucket_hist(
            b[i],
            now,
            window,
            bins,
        )
}

proof fn lemma_stripe_same(a: Seq<BucketView>, b: Seq<BucketView>, now: u64, window: u64, bins: nat)
    requires
        stripe_adds_same(a, b, now, window, bins),
    ensures
        stripe_hist(a, now, window, bins) == stripe_hist(b, now, window, bins),
    decreases a.len(),
{
    if a.len() > 0 {
        let (x, y) = (a.drop_last(), b.drop_last());
        assert forall|i: int| 0 <= i < x.len() implies bucket_hist(#[trigger] x[i], now, window, bins)
            == bucket_hist(y[i], now, window, bins) by {
            assert(bucket_hist(a[i], now, window, bins) == bucket_hist(b[i], now, window, bins));
        }
        lemma_stripe_same(x, y, now, window, bins);
        let last = a.len() - 1;
        assert(bucket_hist(a[last], now, window, bins) == bucket_hist(b[last], now, window, bins));
    }
}

/// Stripes whose buckets add the same to a window show the same in it.
proof fn lemma_window_same(
    a: Seq<Seq<BucketView>>,
    b: Seq<Seq<BucketView>>,
    now: u64,
    window: u64,
    bins: nat,
)
    requires
        a.len() == b.len(),
        forall|s: int|
            0 <= s < a.len() ==> stripe_adds_same(#[trigger] a[s], b[s], now, window, bins),
    ensures
        window_hist(a, now, window, bins) == window_hist(b, now, window, bins),
    decreases a.len(),
{
    if a.len() > 0 {
        let (x, y) = (a.drop_last(), b.drop_last());
        assert forall|s: int| 0 <= s < x.len() implies stripe_adds_same(
            #[trigger] x[s],
            y[s],
            now,
            window,
            bins,
        ) by {
            assert(stripe_adds_same(a[s], b[s], now, window, bins));
        }
        lemma_window_same(x, y, now, window, bins);
        assert(stripe_adds_same(a[a.len() - 1], b[a.len() - 1], now, window, bins));
        lemma_stripe_same(a.last(), b.last(), now, window, bins);
    }
}

/// Only buckets that belong to the window are used: trackers that agree on these
/// read the same.
pub proof fn law_only_active_buckets_count(
    a: Seq<Seq<BucketView>>,
    b: Seq<Seq<BucketView>>,
    now: u64,
    window: u64,
    bins: nat,
)
    requires
        a.len() == b.len(),
        forall|s: int|
            0 <= s < a.len() ==> stripe_same_in_window(#[trigger] a[s], b[s], now, window),
    ensures
        window_hist(a, now, window, bins) == window_hist(b, now, window, bins),
{
    assert forall|s: int| 0 <= s < a.len() implies stripe_adds_same(
        #[trigger] a[s],
        b[s],
        now,
        window,
        bins,
    ) by {
        assert(stripe_same_in_window(a[s], b[s], now, window));
        assert forall|i: int| 0 <= i < a[s].len() implies bucket_hist(
            #[trigger] a[s][i],
            now,
            window,
            bins,
        ) == bucket_hist(b[s][i], now, window, bins) by {
            assert(same_in_window(a[s][i], b[s][i], now, window));
        }
    }
    lemma_window_same(a, b, now, window, bins);
}

/// The histogram of two lists is that of both together.
pub proof fn law_histograms_merge(layout: Layout, a: Seq<nat>, b: Seq<nat>)
    requires
        layout.wf(),
    ensures
        hist_of(layout, a + b) == merge(hist_of(layout, a), hist_of(layout, b)),
    decreases b.len(),
{
    lemma_hist_of_len(layout, a);
    if b.len() == 0 {
        assert(a + b =~= a);
        assert(merge(hist_of(layout, a), no_counts(layout.spec_bins())) =~= hist_of(layout, a));
    } else {
        let init = b.drop_last();
        assert((a + b).drop_last() =~= a + init);
        assert((a + b).last() == b.last());
        law_histograms_merge(layout, a, init);
        lemma_hist_of_len(layout, init);
        crate::bins::law_bin_monotone(layout, b.last(), b.last());
        assert(hist_of(layout, a + b) =~= merge(hist_of(layout, a), hist_of(layout, b)));
    }
}

/// No bucket of a stripe belongs to the window.
pub open spec fn stripe_expired(stripe: Seq<BucketView>, now: u64, window: u64) -> bool {
    forall|i: int| 0 <= i < stripe.len() ==> !is_active((#[trigger] stripe[i]).epoch, now, window)
}

proof fn lemma_stripe_expired(stripe: Seq<BucketView>, now: u64, window: u64, bins: nat)
    requires
        stripe_expired(stripe, now, window),
    ensures
        stripe_hist(stripe, now, window, bins) == no_counts(bins),
    decreases stripe.len(),
{
    if stripe.len() > 0 {
        assert forall|i: int| 0 <= i < stripe.len() - 1 implies !is_active(
            (#[trigger] stripe.drop_last()[i]).epoch,
            now,
            window,
        ) by {
            assert(!is_active(stripe[i].epoch, now, window));
        }
        lemma_stripe_expired(stripe.drop_last(), now, window, bins);
        assert(!is_active(stripe[stripe.len() - 1].epoch, now, window));
        assert(merge(no_counts(bins), no_counts(bins)) =~= no_counts(bins));
    }
}

/// Once every bucket has left the window, every percentile is zero.
pub proof fn law_expired_window_reads_zero(
    layout: Layout,
    stripes: Seq<Seq<BucketView>>,
    now: u64,
    window: u64,
    p: nat,
)
    requires
        forall|s: int|
            0 <= s < stripes.len() ==> stripe_expired(#[trigger] stripes[s], now, window),
    ensures
        window_hist(stripes, now, window, layout.spec_bins()) == no_counts(layout.spec_bins()),
        percentile(layout, window_hist(stripes, now, window, layout.spec_bins()), p) == 0,
    decreases stripes.len(),
{
    let bins = layout.spec_bins();
    if stripes.len() > 0 {
        assert forall|s: int| 0 <= s < stripes.len() - 1 implies stripe_expired(
            #[trigger] stripes.drop_last()[s],
            now,
            window,
        ) by {
            assert(stripe_expired(stripes[s], now, window));
        }
        law_expired_window_reads_zero(layout, stripes.drop_last(), now, window, p);
        assert(stripe_expired(stripes[stripes.len() - 1], now, window));
        lemma_stripe_expired(stripes.last(), now, window, bins);
        assert(merge(no_counts(bins), no_counts(bins)) =~= no_counts(bins));
    }
    crate::hist::lemma_sum_no_counts(bins);
}

proof fn lemma_stripe_update(
    stripe: Seq<BucketView>,
    b: int,
    x: BucketView,
    now: u64,
    window: u64,
    bins: nat,
    i: int,
)
    requires
        0 <= b < stripe.len(),
        0 <= i < bins,
        same_bins(stripe, bins),
        x.hist.len() == bins,
    ensures
        stripe_hist(stripe.update(b, x), now, window, bins)[i] + bucket_hist(
            stripe[b],
            now,
            window,
            bins,
        )[i] == stripe_hist(stripe, now, window, bins)[i] + bucket_hist(x, now, window, bins)[i],
    decreases stripe.len(),
{
    let changed = stripe.update(b, x);
    let init = stripe.drop_last();
    crate::window::lemma_stripe_hist_len(init, now, window, bins);
    crate::window::lemma_stripe_hist_len(changed.drop_last(), now, window, bins);
    if b == stripe.len() - 1 {
        assert(changed.drop_last() =~= init);
    } else {
        assert(changed.drop_last() =~= init.update(b, x));
        assert(same_bins(init, bins)) by {
            assert forall|j: int| 0 <= j < init.len() implies (#[trigger] init[j]).hist.len() == bins by {
                assert(stripe[j].hist.len() == bins);
            }
        }
        lemma_stripe_update(init, b, x, now, window, bins, i);
    }
}

proof fn lemma_stripes_update(
    stripes: Seq<Seq<BucketView>>,
    s: int,
    x: Seq<BucketView>,
    now: u64,
    window: u64,
    bins: nat,
    i: int,
)
    requires
        0 <= s < stripes.len(),
        0 <= i < bins,
    ensures
        window_hist(stripes.update(s, x), now, window, bins)[i] + stripe_hist(
            stripes[s],
            now,
            window,
            bins,
        )[i] == window_hist(stripes, now, window, bins)[i] + stripe_hist(x, now, window, bins)[i],
    decreases stripes.len(),
{
    let changed = stripes.update(s, x);
    let init = stripes.drop_last();
    crate::window::lemma_window_hist_len(init, now, window, bins);
    crate::window::lemma_window_hist_len(changed.drop_last(), now, window, bins);
    if s == stripes.len() - 1 {
        assert(changed.drop_last() =~= init);
    } else {
        assert(changed.drop_last() =~= init.update(s, x));
        lemma_stripes_update(init, s, x, now, window, bins, i);
    }
}

/// Replacing one bucket replaces its counts in the window.
pub proof fn lemma_bucket_update(
    stripes: Seq<Seq<BucketView>>,
    s: int,
    b: int,
    x: BucketView,
    now: u64,
    window: u64,
    bins: nat,
    i: int,
)
    requires
        0 <= s < stripes.len(),
        0 <= b < stripes[s].len(),
        same_bins(stripes[s], bins),
        x.hist.len() == bins,
        0 <= i < bins,
    ensures
        window_hist(stripes.update(s, stripes[s].update(b, x)), now, window, bins)[i] + bucket_hist(
            stripes[s][b],
            now,
            window,
            bins,
        )[i] == window_hist(stripes, now, window, bins)[i] + bucket_hist(x, now, window, bins)[i],
{
    lemma_stripe_update(stripes[s], b, x, now, window, bins, i);
    lemma_stripes_update(stripes, s, stripes[s].update(b, x), now, window, bins, i);
}

/// A bucket counts no more than the window it is in.
pub proof fn lemma_bucket_within_window(
    stripes: Seq<Seq<BucketView>>,
    s: int,
    b: int,
    now: u64,
    window: u64,
    bins: nat,
    i: int,
)
    requires
        0 <= s < stripes.len(),
        0 <= b < stripes[s].len(),
        same_bins(stripes[s], bins),
        0 <= i < bins,
    ensures
        bucket_hist(stripes[s][b], now, window, bins)[i] <= window_hist(stripes, now, window, bins)[i],
{
    let x = BucketView { epoch: 0, hist: zeros(bins) };
    lemma_bucket_update(stripes, s, b, x, now, window, bins, i);
}

/// A bucket counts in a read at `now` if and only if `now` is at most a window after its
/// second, and then with all its counts, whatever else is stored. A bucket whose second
/// is still to come for the reader counts too.
pub proof fn law_bucket_counts_while_in_window(
    stripes: Seq<Seq<BucketView>>,
    s: int,
    b: int,
    x: BucketView,
    now: u64,
    window: u64,
    bins: nat,
    i: int,
)
    requires
        0 <= s < stripes.len(),
        0 <= b < stripes[s].len(),
        same_bins(stripes[s], bins),
        x.hist.len() == bins,
        0 <= i < bins,
    ensures
        ({
            let none = BucketView { epoch: x.epoch, hist: Seq::new(bins, |j: int| 0u64) };
            let with = stripes.update(s, stripes[s].update(b, x));
            let without = stripes.update(s, stripes[s].update(b, none));
            window_hist(with, now, window, bins)[i] == window_hist(without, now, window, bins)[i]
                + if now <= x.epoch + window {
                x.hist[i] as nat
            } else {
                0
            }
        }),
{
    let none = BucketView { epoch: x.epoch, hist: Seq::new(bins, |j: int| 0u64) };
    lemma_bucket_update(stripes, s, b, x, now, window, bins, i);
    lemma_bucket_update(stripes, s, b, none, now, window, bins, i);
}

/// Buckets without counts show nothing, whatever their seconds and the time of the read.
pub proof fn law_empty_buckets_show_nothing(
    stripes: Seq<Seq<BucketView>>,
    now: u64,
    window: u64,
    bins: nat,
)
    requires
        forall|s: int| 0 <= s < stripes.len() ==> is_empty_stripe(#[trigger] stripes[s], bins),
    ensures
        window_hist(stripes, now, window, bins) == Seq::new(bins, |i: int| 0nat),
    decreases stripes.len(),
{
    if stripes.len() > 0 {
        let init = stripes.drop_last();
        assert forall|s: int| 0 <= s < init.len() implies is_empty_stripe(
            #[trigger] init[s],
            bins,
        ) by {
            assert(is_empty_stripe(stripes[s], bins));
        }
        law_empty_buckets_show_nothing(init, now, window, bins);
        assert(is_empty_stripe(stripes[stripes.len() - 1], bins));
        lemma_empty_stripe(stripes.last(), now, window, bins);
    }
    assert(window_hist(stripes, now, window, bins) =~= Seq::new(bins, |i: int| 0nat));
}

/// The buckets of a stripe count nothing.
pub open spec fn is_empty_stripe(stripe: Seq<BucketView>, bins: nat) -> bool {
    forall|b: int| 0 <= b < stripe.len() ==> (#[trigger] stripe[b]).hist == Seq::new(
        bins,
        |i: int| 0u64,
    )
}

proof fn lemma_empty_stripe(stripe: Seq<BucketView>, now: u64, window: u64, bins: nat)
    requires
        is_empty_stripe(stripe, bins),
    ensures
        stripe_hist(stripe, now, window, bins) == Seq::new(bins, |i: int| 0nat),
    decreases stripe.len(),
{
    if stripe.len() > 0 {
        let init = stripe.drop_last();
        assert forall|b: int| 0 <= b < init.len() implies (#[trigger] init[b]).hist == Seq::new(
            bins,
            |i: int| 0u64,
        ) by {
            assert(init[b] == stripe[b]);
        }
        lemma_empty_stripe(init, now, window, bins);
        assert(stripe[stripe.len() - 1].hist == Seq::new(bins, |i: int| 0u64));
    }
    assert(stripe_hist(stripe, now, window, bins) =~= Seq::new(bins, |i: int| 0nat));
}

/// Percentiles above the ninety-ninth are zero.
pub proof fn law_percentiles_end_at_ninety_nine(layout: Layout, hist: Seq<nat>, p: nat)
    requires
        p > 99,
    ensures
        percentile(layout, hist, p) == 0,
{
}

/// Every percentile of a histogram without observations is zero.
pub proof fn law_percentile_of_nothing_is_zero(layout: Layout, hist: Seq<nat>, p: nat)
    requires
        forall|i: int| 0 <= i < hist.len() ==> #[trigger] hist[i] == 0,
    ensures
        percentile(layout, hist, p) == 0,
{
    assert(hist =~= no_counts(hist.len()));
    crate::hist::lemma_sum_no_counts(hist.len());
}

/// The observation of a rank is in the bin of the latency at that place of the sorted
/// list, and in no other.
pub proof fn law_rank_is_in_the_bin_of_its_latency(
    layout: Layout,
    lats: Seq<nat>,
    rank: nat,
    bin: int,
)
    requires
        layout.wf(),
        ascending(lats),
        1 <= rank <= lats.len(),
        0 <= bin < layout.spec_bins(),
    ensures
        holds_rank(hist_of(layout, lats), rank, bin) <==> bin == layout.bin_of(lats[rank - 1]),
{
    lemma_hist_of_len(layout, lats);
    lemma_prefix_of_bins(layout, lats, bin, rank - 1);
    lemma_prefix_of_bins(layout, lats, bin + 1, rank - 1);
}

/// With a linear histogram a percentile is the latency at its rank, cut to a multiple of
/// the step, or the maximum if it is not below that.
pub proof fn law_linear_percentile(max_ms: u64, step: u64, lats: Seq<nat>, p: nat)
    requires
        (Layout::Linear { max_ms, step }).wf(),
        ascending(lats),
        lats.len() > 0,
        p <= 99,
    ensures
        ({
            let layout = Layout::Linear { max_ms, step };
            let exact = lats[percentile_rank(lats.len(), p) - 1];
            percentile(layout, hist_of(layout, lats), p) == if exact >= max_ms {
                max_ms as int
            } else {
                exact - exact % step as nat
            }
        }),
{
    let layout = Layout::Linear { max_ms, step };
    law_percentile_is_ranked_latency(layout, lats, p);
    crate::bins::law_linear_read_back(max_ms, step, lats[percentile_rank(lats.len(), p) - 1]);
}

/// With the compact histogram a percentile is the latency at its rank, cut to a multiple
/// of ten below one second, and from there on the power of two below it, from 1024 up
/// to 4096, or five seconds if it is not below that.
pub proof fn law_compact_percentile(lats: Seq<nat>, p: nat)
    requires
        ascending(lats),
        lats.len() > 0,
        p <= 99,
    ensures
        ({
            let layout = Layout::LinearLog;
            let exact = lats[percentile_rank(lats.len(), p) - 1];
            percentile(layout, hist_of(layout, lats), p) == crate::bins::compact_reading(exact)
        }),
{
    let layout = Layout::LinearLog;
    law_percentile_is_ranked_latency(layout, lats, p);
    crate::bins::law_compact_read_back(lats[percentile_rank(lats.len(), p) - 1]);
}

} // verus!
