//! Laws of the write path: what flushes keep, add and leave alone.

use vstd::prelude::*;

use crate::batch::{BatchView, FlushView};
use crate::bucket::{change_of_bin, step_of_flush, BucketView, FlushMode, FlushStep};
use crate::config::Config;
use crate::hist::{counts, merge, sum};
use crate::tracker::{after_flush, after_flushes, shaped};
use crate::window::{at_most, bucket_hist, same_bins, stripe_hist, window_hist};

verus! {

/// The counts of a bucket and of a flush together fit the bucket.
pub open spec fn fits(b: BucketView, hist: Seq<u64>) -> bool {
    b.hist.len() == hist.len() && forall|i: int|
        0 <= i < hist.len() ==> b.hist[i] + #[trigger] hist[i] <= u64::MAX
}

/// Flushing more of the same second adds the counts and loses none.
pub proof fn law_flush_of_the_same_second_adds(b: BucketView, hist: Seq<u64>, epoch: u64)
    requires
        b.epoch == epoch,
        fits(b, hist),
    ensures
        b.flushed(hist, epoch).epoch == epoch,
        counts(b.flushed(hist, epoch).hist) == merge(counts(b.hist), counts(hist)),
{
    let after = b.flushed(hist, epoch);
    assert forall|i: int| 0 <= i < hist.len() implies after.hist[i] == b.hist[i] + hist[i] by {
        assert(b.hist[i] + hist[i] <= u64::MAX);
    }
    assert(counts(after.hist) =~= merge(counts(b.hist), counts(hist)));
}

/// Claiming a bucket of an earlier second leaves nothing of that second: the bucket
/// holds exactly what the flush brings, in every bin.
pub proof fn law_claim_replaces_every_bin(b: BucketView, hist: Seq<u64>, epoch: u64)
    requires
        b.epoch < epoch,
    ensures
        b.flushed(hist, epoch) == (BucketView { epoch, hist }),
{
}

/// A flush never makes a bin count more than it did before and the flush brought
/// together.
pub proof fn law_flush_adds_at_most_its_counts(b: BucketView, hist: Seq<u64>, epoch: u64, i: int)
    requires
        b.hist.len() == hist.len(),
        0 <= i < hist.len(),
    ensures
        b.flushed(hist, epoch).hist.len() == hist.len(),
        b.flushed(hist, epoch).hist[i] <= b.hist[i] + hist[i],
{
}

/// Two flushes of the same second commute, whatever the bucket held before.
pub proof fn law_flushes_of_a_second_commute(
    b: BucketView,
    first: Seq<u64>,
    second: Seq<u64>,
    epoch: u64,
)
    requires
        b.hist.len() == first.len() == second.len(),
        forall|i: int|
            0 <= i < first.len() ==> b.hist[i] + #[trigger] first[i] + second[i] <= u64::MAX,
    ensures
        b.flushed(first, epoch).flushed(second, epoch) == b.flushed(second, epoch).flushed(
            first,
            epoch,
        ),
{
    let x = b.flushed(first, epoch).flushed(second, epoch);
    let y = b.flushed(second, epoch).flushed(first, epoch);
    assert forall|i: int| 0 <= i < first.len() implies x.hist[i] == y.hist[i] by {
        assert(b.hist[i] + first[i] + second[i] <= u64::MAX);
    }
    assert(x =~= y);
}

/// A flush that saw the bucket before other flushes changed it leaves it as if it
/// had looked again, unless it saw the bucket at its own second and a later second
/// has claimed it since. Each flush, its claim and its writes to the bins, is taken
/// whole here.
pub proof fn law_early_look_is_harmless(b: BucketView, prev: u64, hist: Seq<u64>, epoch: u64)
    requires
        prev <= b.epoch,
        prev == epoch ==> b.epoch == epoch,
    ensures
        b.flushed_from(prev, hist, epoch) == b.flushed(hist, epoch),
{
}

/// Of two flushes of a second that both saw the bucket at an earlier one, only the
/// first to claim it replaces what it held; the other adds. Each flush is taken
/// whole here too.
pub proof fn law_claim_succeeds_once(
    b: BucketView,
    first: Seq<u64>,
    second: Seq<u64>,
    epoch: u64,
)
    requires
        b.epoch < epoch,
    ensures
        b.flushed_from(b.epoch, first, epoch).flushed_from(b.epoch, second, epoch)
            == (BucketView { epoch, hist: first }).written(FlushMode::Add, second, epoch),
{
}

/// A bin after additions in the order of a list, around `u64`.
pub open spec fn bin_after(bin: u64, changes: Seq<u64>) -> u64
    decreases changes.len(),
{
    if changes.len() == 0 {
        bin
    } else {
        bin_after(bin, changes.drop_last()).wrapping_add(changes.last())
    }
}

proof fn lemma_bin_after_shift(bin: u64, change: u64, changes: Seq<u64>)
    ensures
        bin_after(bin.wrapping_add(change), changes) == bin_after(bin, changes).wrapping_add(change),
    decreases changes.len(),
{
    if changes.len() > 0 {
        lemma_bin_after_shift(bin, change, changes.drop_last());
    }
}

/// Flushes of a second may overlap bin by bin. A claim read `stale` from a bin before
/// others could add to it; wherever its own write falls among their additions, the bin
/// ends up as if the claim had come first, and nothing is lost.
pub proof fn law_overlapping_flushes_lose_nothing(
    stale: u64,
    count: u64,
    earlier: Seq<u64>,
    later: Seq<u64>,
)
    ensures
        bin_after(
            stale,
            earlier.push(change_of_bin(FlushMode::Store, stale, count)) + later,
        ) == bin_after(count, earlier + later),
    decreases later.len(),
{
    let change = change_of_bin(FlushMode::Store, stale, count);
    let all = earlier.push(change) + later;
    if later.len() == 0 {
        assert(all.drop_last() =~= earlier);
        assert(earlier + later =~= earlier);
        lemma_bin_after_shift(stale, change, earlier);
    } else {
        law_overlapping_flushes_lose_nothing(stale, count, earlier, later.drop_last());
        assert(all.drop_last() =~= earlier.push(change) + later.drop_last());
        assert((earlier + later).drop_last() =~= earlier + later.drop_last());
    }
}

/// A flush never takes a bucket from a later second: its epoch does not go back, and
/// a bucket of a later second stays as it was.
pub proof fn law_flush_never_goes_back(b: BucketView, hist: Seq<u64>, epoch: u64)
    ensures
        b.flushed(hist, epoch).epoch >= b.epoch,
        b.epoch > epoch ==> b.flushed(hist, epoch) == b,
        b.epoch <= epoch ==> b.flushed(hist, epoch).epoch == epoch,
{
}

/// What a flush does goes by the order of seconds: a bucket of an earlier second is
/// taken over with exactly the flushed counts, one of the same second has them added
/// bin by bin, around `u64`, and one of a later second stays as it was.
pub proof fn law_flush_goes_by_the_second(
    stripes: Seq<Seq<BucketView>>,
    config: Config,
    f: FlushView,
    i: int,
)
    requires
        shaped(stripes, config),
        f.wf(config),
        0 <= i < config.layout.spec_bins(),
    ensures
        ({
            let before = stripes[f.stripe as int][f.bucket as int];
            let after = after_flush(stripes, f)[f.stripe as int][f.bucket as int];
            &&& before.epoch < f.epoch ==> after.epoch == f.epoch && after.hist == f.hist
            &&& before.epoch > f.epoch ==> after == before
            &&& before.epoch == f.epoch ==> {
                &&& after.epoch == f.epoch
                &&& after.hist.len() == before.hist.len()
                &&& after.hist[i] == (before.hist[i] + f.hist[i]) % 0x1_0000_0000_0000_0000
            }
        }),
{
    assert(stripes[f.stripe as int].len() == config.spec_buckets());
    assert(same_bins(stripes[f.stripe as int], config.layout.spec_bins()));
    let before = stripes[f.stripe as int][f.bucket as int];
    assert(before.hist.len() == config.layout.spec_bins());
}

/// A flush decides by the order of seconds: it drops what comes too late for a bucket,
/// claims a bucket of an earlier second, and adds to one of its own.
pub proof fn law_flush_steps(seen: u64, epoch: u64)
    ensures
        step_of_flush(seen, epoch) == FlushStep::Drop <==> seen > epoch,
        step_of_flush(seen, epoch) == FlushStep::Claim <==> seen < epoch,
        step_of_flush(seen, epoch) == FlushStep::Add <==> seen == epoch,
{
}

/// A flush that looked early goes by what it saw, except that it looks again to claim.
pub proof fn law_early_look_decides(b: BucketView, prev: u64, hist: Seq<u64>, epoch: u64, i: int)
    requires
        b.hist.len() == hist.len(),
        0 <= i < hist.len(),
    ensures
        prev > epoch ==> b.flushed_from(prev, hist, epoch) == b,
        prev < epoch ==> b.flushed_from(prev, hist, epoch) == b.flushed(hist, epoch),
        prev == epoch ==> {
            let after = b.flushed_from(prev, hist, epoch);
            &&& after.epoch == b.epoch
            &&& after.hist.len() == b.hist.len()
            &&& after.hist[i] == (b.hist[i] + hist[i]) % 0x1_0000_0000_0000_0000
        },
{
}

/// What is added to a bin, around `u64`, leads from the count that was read to the one
/// that is to stand there, or is the count itself.
pub proof fn law_changes_of_a_bin(stale: u64, count: u64)
    ensures
        (stale + change_of_bin(FlushMode::Store, stale, count)) % 0x1_0000_0000_0000_0000 == count,
        change_of_bin(FlushMode::Add, stale, count) == count,
{
}

/// A flush changes at most one bucket of one stripe and leaves every other as it was.
pub proof fn law_flush_is_local(
    stripes: Seq<Seq<BucketView>>,
    config: Config,
    f: FlushView,
    s: int,
    b: int,
)
    requires
        shaped(stripes, config),
        f.wf(config),
        0 <= s < config.stripes,
        0 <= b < config.spec_buckets(),
        s != f.stripe || b != f.bucket,
    ensures
        after_flush(stripes, f)[s][b] == stripes[s][b],
{
    assert(stripes[s].len() == config.spec_buckets());
}

/// Seconds that are in the window together have buckets of their own.
pub proof fn law_seconds_have_own_buckets(config: Config, a: u64, b: u64)
    requires
        config.wf(),
        a < b <= usize::MAX,
        b - a <= config.window,
    ensures
        config.bucket_of(a) != config.bucket_of(b),
{
    let n = config.spec_buckets() as int;
    let (x, y) = (a as int, b as int);
    if x % n == y % n {
        vstd::arithmetic::div_mod::lemma_fundamental_div_mod(x, n);
        vstd::arithmetic::div_mod::lemma_fundamental_div_mod(y, n);
        let (p, q) = (x / n, y / n);
        assert(false) by (nonlinear_arith)
            requires
                0 < n * q - n * p < n,
        ;
    }
}

/// Number of observations stored in all buckets, whether or not they belong to the
/// current window. Read at second zero, every bucket belongs to the window.
pub open spec fn stored(stripes: Seq<Seq<BucketView>>, config: Config) -> nat {
    sum(window_hist(stripes, 0, config.window, config.layout.spec_bins()))
}

/// A flush stores at most the observations that it brings.
pub proof fn law_flush_stores_at_most_its_counts(
    stripes: Seq<Seq<BucketView>>,
    config: Config,
    f: FlushView,
)
    requires
        config.wf(),
        shaped(stripes, config),
        f.wf(config),
    ensures
        stored(after_flush(stripes, f), config) <= stored(stripes, config) + sum(counts(f.hist)),
{
    let (s, b) = (f.stripe as int, f.bucket as int);
    let (window, bins) = (config.window, config.layout.spec_bins());
    assert(same_bins(stripes[s], bins) && stripes[s].len() == config.spec_buckets());
    let bucket = stripes[s][b];
    let x = bucket.flushed(f.hist, f.epoch);
    assert(bucket.hist.len() == bins);
    let before = window_hist(stripes, 0, window, bins);
    let after = window_hist(after_flush(stripes, f), 0, window, bins);
    crate::window::lemma_window_hist_len(stripes, 0, window, bins);
    crate::window::lemma_window_hist_len(after_flush(stripes, f), 0, window, bins);
    let limit = merge(before, counts(f.hist));
    assert forall|i: int| 0 <= i < bins implies #[trigger] after[i] <= limit[i] by {
        crate::window_laws::lemma_bucket_update(stripes, s, b, x, 0, window, bins, i);
        law_flush_adds_at_most_its_counts(bucket, f.hist, f.epoch, i);
        assert(bucket_hist(bucket, 0, window, bins)[i] == bucket.hist[i]);
        assert(bucket_hist(x, 0, window, bins)[i] == x.hist[i]);
    }
    crate::hist::lemma_sum_le(after, limit);
    crate::hist::lemma_sum_merge(before, counts(f.hist));
}

proof fn lemma_stripe_within_all(stripe: Seq<BucketView>, now: u64, window: u64, bins: nat)
    requires
        same_bins(stripe, bins),
    ensures
        at_most(stripe_hist(stripe, now, window, bins), stripe_hist(stripe, 0, window, bins)),
    decreases stripe.len(),
{
    crate::window::lemma_stripe_hist_len(stripe, now, window, bins);
    crate::window::lemma_stripe_hist_len(stripe, 0, window, bins);
    if stripe.len() > 0 {
        let init = stripe.drop_last();
        assert(same_bins(init, bins)) by {
            assert forall|j: int| 0 <= j < init.len() implies (#[trigger] init[j]).hist.len() == bins by {
                assert(stripe[j].hist.len() == bins);
            }
        }
        assert(stripe[stripe.len() - 1].hist.len() == bins);
        lemma_stripe_within_all(init, now, window, bins);
        crate::window::lemma_stripe_hist_len(init, now, window, bins);
        crate::window::lemma_stripe_hist_len(init, 0, window, bins);
    }
}

proof fn lemma_stripes_within_all(
    stripes: Seq<Seq<BucketView>>,
    now: u64,
    window: u64,
    bins: nat,
)
    requires
        forall|s: int| 0 <= s < stripes.len() ==> same_bins(#[trigger] stripes[s], bins),
    ensures
        at_most(window_hist(stripes, now, window, bins), window_hist(stripes, 0, window, bins)),
    decreases stripes.len(),
{
    crate::window::lemma_window_hist_len(stripes, now, window, bins);
    crate::window::lemma_window_hist_len(stripes, 0, window, bins);
    if stripes.len() > 0 {
        let init = stripes.drop_last();
        assert forall|s: int| 0 <= s < init.len() implies same_bins(#[trigger] init[s], bins) by {
            assert(same_bins(stripes[s], bins));
        }
        assert(same_bins(stripes[stripes.len() - 1], bins));
        lemma_stripes_within_all(init, now, window, bins);
        lemma_stripe_within_all(stripes.last(), now, window, bins);
        crate::window::lemma_window_hist_len(init, now, window, bins);
        crate::window::lemma_window_hist_len(init, 0, window, bins);
        crate::window::lemma_stripe_hist_len(stripes.last(), now, window, bins);
        crate::window::lemma_stripe_hist_len(stripes.last(), 0, window, bins);
    }
}

/// A window shows no more observations than are stored.
pub proof fn law_window_is_within_stored(stripes: Seq<Seq<BucketView>>, config: Config, now: u64)
    requires
        shaped(stripes, config),
    ensures
        sum(window_hist(stripes, now, config.window, config.layout.spec_bins())) <= stored(
            stripes,
            config,
        ),
{
    let bins = config.layout.spec_bins();
    assert forall|s: int| 0 <= s < stripes.len() implies same_bins(#[trigger] stripes[s], bins) by {
        assert(stripes[s].len() == config.spec_buckets());
    }
    lemma_stripes_within_all(stripes, now, config.window, bins);
    crate::hist::lemma_sum_le(
        window_hist(stripes, now, config.window, bins),
        window_hist(stripes, 0, config.window, bins),
    );
}

/// No observation is counted twice: what is stored and what the thread holds back
/// grows by at most one with an observation.
pub proof fn law_record_counts_at_most_once(
    stripes: Seq<Seq<BucketView>>,
    config: Config,
    t: BatchView,
    now: u64,
    lat: nat,
)
    requires
        config.wf(),
        shaped(stripes, config),
        t.wf(config),
    ensures
        stored(after_flushes(stripes, t.flushes_of(config, now, lat)), config) + t.observed(
            config,
            now,
            lat,
        ).count <= stored(stripes, config) + t.count + 1,
{
    let turned = t.turned(config, now);
    let bin = config.layout.bin_of(lat);
    let next = turned.counted(bin);
    crate::bins::law_bin_monotone(config.layout, lat, lat);
    crate::batch::lemma_emptied(config, t, now);
    crate::batch::lemma_counted(config, turned, bin);
    crate::batch::lemma_bucket_in_range(config, t.start_sec);
    crate::batch::lemma_bucket_in_range(config, now);
    crate::tracker::lemma_record_in_two_steps(stripes, config, t, now, lat);
    let middle = if t.is_over(now) && t.count > 0 {
        law_flush_stores_at_most_its_counts(stripes, config, t.flush_all(config));
        crate::tracker::lemma_flush_keeps_shape(stripes, config, t.flush_all(config));
        after_flush(stripes, t.flush_all(config))
    } else {
        stripes
    };
    if next.count >= config.flush_every {
        law_flush_stores_at_most_its_counts(middle, config, next.flush_all(config));
    }
}

} // verus!
