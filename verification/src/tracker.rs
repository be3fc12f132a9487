//! The tracker: striped per-second buckets that threads flush their batches
//! into and that percentiles are read from.

use vstd::prelude::*;

use crate::batch::{flush_views, BatchView, Flush, FlushView, ThreadBatch};
use crate::bucket::{Bucket, BucketView};
use crate::config::Config;
use crate::flush_laws::stored;
use crate::hist::{merge, no_counts, sum, zeros};
use crate::window::{
    bucket_views, collect_window, percentile_of, same_bins, stripe_views, window_hist,
};

verus! {

/// Buckets in stripes, one bucket of each stripe for every second of the window
/// and one for the current second.
pub struct LatencyTracker {
    pub config: Config,
    pub stripes: Vec<Vec<Bucket>>,
}

impl View for LatencyTracker {
    type V = Seq<Seq<BucketView>>;

    open spec fn view(&self) -> Seq<Seq<BucketView>> {
        stripe_views(self.stripes@)
    }
}

/// The stripes have the shape that the configuration gives them.
pub open spec fn shaped(stripes: Seq<Seq<BucketView>>, config: Config) -> bool {
    &&& stripes.len() == config.stripes
    &&& forall|s: int|
        0 <= s < stripes.len() ==> (#[trigger] stripes[s]).len() == config.spec_buckets()
            && same_bins(stripes[s], config.layout.spec_bins())
}

/// The stripes without observations.
pub open spec fn fresh(config: Config) -> Seq<Seq<BucketView>> {
    Seq::new(
        config.stripes as nat,
        |s: int|
            Seq::new(
                config.spec_buckets(),
                |b: int| BucketView { epoch: 0, hist: zeros(config.layout.spec_bins()) },
            ),
    )
}

/// The stripes after a flush: one bucket of one stripe takes the counts, unless it
/// belongs to a later second.
pub open spec fn after_flush(stripes: Seq<Seq<BucketView>>, f: FlushView) -> Seq<Seq<BucketView>> {
    let stripe = stripes[f.stripe as int];
    stripes.update(
        f.stripe as int,
        stripe.update(f.bucket as int, stripe[f.bucket as int].flushed(f.hist, f.epoch)),
    )
}

/// The stripes after the flushes of a list, the first one first.
pub open spec fn after_flushes(
    stripes: Seq<Seq<BucketView>>,
    flushes: Seq<FlushView>,
) -> Seq<Seq<BucketView>>
    decreases flushes.len(),
{
    if flushes.len() == 0 {
        stripes
    } else {
        after_flush(after_flushes(stripes, flushes.drop_last()), flushes.last())
    }
}

/// The stripes after a thread flushed on demand: what it held back was flushed.
pub open spec fn after_drain(
    stripes: Seq<Seq<BucketView>>,
    config: Config,
    t: BatchView,
) -> Seq<Seq<BucketView>> {
    if t.count > 0 {
        after_flush(stripes, t.flush_all(config))
    } else {
        stripes
    }
}

impl LatencyTracker {
    /// The tracker has the shape of a configuration that can be used.
    pub open spec fn wf(self) -> bool {
        &&& self.config.wf()
        &&& shaped(self@, self.config)
    }

    /// The counts of the window that ends at `now`.
    pub open spec fn counts_at(self, now: u64) -> Seq<nat> {
        window_hist(self@, now, self.config.window, self.config.layout.spec_bins())
    }

    /// A tracker without observations.
    pub fn new(config: Config) -> (t: LatencyTracker)
        requires
            config.wf(),
        ensures
            t.wf(),
            t.config == config,
            t@ == fresh(config),
            stored(t@, config) == 0,
    {
        let bins = config.layout.bins();
        let buckets = config.buckets();
        let mut stripes: Vec<Vec<Bucket>> = Vec::new();
        while stripes.len() < config.stripes
            invariant
                stripes@.len() <= config.stripes,
                bins == config.layout.spec_bins(),
                buckets == config.spec_buckets(),
                forall|s: int|
                    0 <= s < stripes@.len() ==> bucket_views(#[trigger] stripes@[s]@) == fresh(
                        config,
                    )[s],
            decreases config.stripes - stripes@.len(),
        {
            let mut stripe: Vec<Bucket> = Vec::new();
            while stripe.len() < buckets
                invariant
                    stripe@.len() <= buckets,
                    forall|b: int|
                        0 <= b < stripe@.len() ==> (#[trigger] stripe@[b])@ == (BucketView {
                            epoch: 0,
                            hist: zeros(bins as nat),
                        }),
                decreases buckets - stripe@.len(),
            {
                stripe.push(Bucket::new(bins));
            }
            assert(bucket_views(stripe@) =~= fresh(config)[stripes@.len() as int]);
            stripes.push(stripe);
        }
        let t = LatencyTracker { config, stripes };
        assert(t@ =~= fresh(config));
        proof {
            lemma_fresh(config, 0);
            crate::hist::lemma_sum_no_counts(config.layout.spec_bins());
        }
        t
    }

    /// The bucket at a place.
    pub fn get_bucket(&self, stripe: usize, b_idx: usize) -> (b: &Bucket)
        requires
            self.wf(),
            stripe < self.config.stripes,
            b_idx < self.config.spec_buckets(),
        ensures
            b@ == self@[stripe as int][b_idx as int],
    {
        assert(self@[stripe as int].len() == self.config.spec_buckets());
        &self.stripes[stripe][b_idx]
    }

    /// Number of observations in the window that ends at `now`, unless it is
    /// beyond `u64`.
    pub fn window_total(&self, now: u64) -> (r: Option<u64>)
        requires
            self.wf(),
        ensures
            match r {
                Some(n) => n == sum(self.counts_at(now)),
                None => sum(self.counts_at(now)) > u64::MAX,
            },
    {
        match collect_window(&self.stripes, now, self.config.window, self.config.layout.bins()) {
            Some((_, total)) => Some(total),
            None => None,
        }
    }

    /// Writes a flush into its bucket, unless that already belongs to a later
    /// second: counts that have left the window never replace newer ones.
    pub fn flush(&mut self, f: &Flush)
        requires
            old(self).wf(),
            f@.wf(old(self).config),
        ensures
            final(self).wf(),
            final(self).config == old(self).config,
            final(self)@ == after_flush(old(self)@, f@),
    {
        let ghost before = self@;
        assert(before[f.stripe as int].len() == self.config.spec_buckets());
        assert(before[f.stripe as int][f.bucket as int].hist.len() == self.config.layout.spec_bins());
        self.stripes[f.stripe][f.bucket].flush(&f.hist, f.epoch);
        proof {
            let after = after_flush(before, f@);
            assert(self@[f.stripe as int] =~= after[f.stripe as int]);
            assert(self@ =~= after);
            lemma_flush_keeps_shape(before, self.config, f@);
        }
    }
}

/// A flush keeps the shape of the stripes.
pub proof fn lemma_flush_keeps_shape(stripes: Seq<Seq<BucketView>>, config: Config, f: FlushView)
    requires
        shaped(stripes, config),
        f.wf(config),
    ensures
        shaped(after_flush(stripes, f), config),
{
    let after = after_flush(stripes, f);
    assert forall|s: int| 0 <= s < after.len() implies (#[trigger] after[s]).len()
        == config.spec_buckets() && same_bins(after[s], config.layout.spec_bins()) by {
        assert(stripes[s].len() == config.spec_buckets());
        assert(same_bins(stripes[s], config.layout.spec_bins()));
        assert forall|b: int| 0 <= b < after[s].len() implies (#[trigger] after[s][b]).hist.len()
            == config.layout.spec_bins() by {
            assert(stripes[s][b].hist.len() == config.layout.spec_bins());
        }
    }
}

/// What an observation does to the stripes, spelled out: a batch of an earlier
/// second is drained, then a batch that the observation fills is flushed.
pub proof fn lemma_record_in_two_steps(
    stripes: Seq<Seq<BucketView>>,
    config: Config,
    t: BatchView,
    now: u64,
    lat: nat,
)
    ensures
        ({
            let next = t.turned(config, now).counted(config.layout.bin_of(lat));
            let middle = if t.is_over(now) {
                after_drain(stripes, config, t)
            } else {
                stripes
            };
            after_flushes(stripes, t.flushes_of(config, now, lat)) == if next.count
                >= config.flush_every {
                after_flush(middle, next.flush_all(config))
            } else {
                middle
            }
        }),
{
    let next = t.turned(config, now).counted(config.layout.bin_of(lat));
    let flushes = t.flushes_of(config, now, lat);
    let none = Seq::<FlushView>::empty();
    let left = seq![t.flush_all(config)];
    reveal_with_fuel(after_flushes, 3);
    assert(left.drop_last() =~= none);
    if next.count >= config.flush_every {
        if t.is_over(now) && t.count > 0 {
            assert(flushes.drop_last() =~= left);
        } else {
            assert(flushes.drop_last() =~= none);
        }
    }
}

/// A window without a count in any of its buckets is empty.
proof fn lemma_no_counts(stripes: Seq<Seq<BucketView>>, now: u64, window: u64, bins: nat, n: nat)
    requires
        forall|s: int|
            0 <= s < stripes.len() ==> (#[trigger] stripes[s]) == Seq::new(
                n,
                |b: int| BucketView { epoch: 0, hist: zeros(bins) },
            ),
    ensures
        window_hist(stripes, now, window, bins) == no_counts(bins),
    decreases stripes.len(),
{
    if stripes.len() > 0 {
        let init = stripes.drop_last();
        assert forall|s: int| 0 <= s < init.len() implies (#[trigger] init[s]) == Seq::new(
            n,
            |b: int| BucketView { epoch: 0, hist: zeros(bins) },
        ) by {
            assert(init[s] == stripes[s]);
        }
        lemma_no_counts(init, now, window, bins, n);
        assert(stripes[stripes.len() - 1] == stripes.last());
        lemma_stripe_no_counts(n, now, window, bins);
        assert(merge(no_counts(bins), no_counts(bins)) =~= no_counts(bins));
    }
}

proof fn lemma_stripe_no_counts(n: nat, now: u64, window: u64, bins: nat)
    ensures
        crate::window::stripe_hist(
            Seq::new(n, |b: int| BucketView { epoch: 0, hist: zeros(bins) }),
            now,
            window,
            bins,
        ) == no_counts(bins),
    decreases n,
{
    let stripe = Seq::new(n, |b: int| BucketView { epoch: 0, hist: zeros(bins) });
    if n > 0 {
        assert(stripe.drop_last() =~= Seq::new(
            (n - 1) as nat,
            |b: int| BucketView { epoch: 0, hist: zeros(bins) },
        ));
        lemma_stripe_no_counts((n - 1) as nat, now, window, bins);
        crate::hist::lemma_sum_no_counts(bins);
        assert(merge(no_counts(bins), no_counts(bins)) =~= no_counts(bins));
    }
}

/// A tracker without observations has the shape of its configuration and shows
/// nothing in any window.
pub proof fn lemma_fresh(config: Config, now: u64)
    requires
        config.wf(),
    ensures
        shaped(fresh(config), config),
        window_hist(fresh(config), now, config.window, config.layout.spec_bins()) == no_counts(
            config.layout.spec_bins(),
        ),
{
    lemma_no_counts(
        fresh(config),
        now,
        config.window,
        config.layout.spec_bins(),
        config.spec_buckets(),
    );
}

/// Records a latency of `lat_ms` milliseconds that a thread observed in the
/// second `now`. The observation joins the thread's batch; whatever the batch
/// then has to flush goes into the tracker.
pub fn record_latency(tracker: &mut LatencyTracker, thread: &mut ThreadBatch, now: u64, lat_ms: u64)
    requires
        old(tracker).wf(),
        old(thread)@.wf(old(tracker).config),
    ensures
        final(tracker).wf(),
        final(tracker).config == old(tracker).config,
        final(thread)@ == old(thread)@.observed(old(tracker).config, now, lat_ms as nat),
        final(thread)@.wf(old(tracker).config),
        final(tracker)@ == after_flushes(
            old(tracker)@,
            old(thread)@.flushes_of(old(tracker).config, now, lat_ms as nat),
        ),
        stored(final(tracker)@, old(tracker).config) + final(thread).count <= stored(
            old(tracker)@,
            old(tracker).config,
        ) + old(thread).count + 1,
{
    let config = tracker.config;
    proof {
        crate::flush_laws::law_record_counts_at_most_once(
            tracker@,
            config,
            thread@,
            now,
            lat_ms as nat,
        );
    }
    let flushes = thread.observe(&config, now, lat_ms);
    let ghost views = flush_views(flushes@);
    let ghost start = tracker@;
    let mut i: usize = 0;
    while i < flushes.len()
        invariant
            i <= flushes@.len(),
            tracker.wf(),
            tracker.config == config,
            views == flush_views(flushes@),
            forall|i: int| 0 <= i < flushes@.len() ==> (#[trigger] flushes@[i])@.wf(config),
            tracker@ == after_flushes(start, views.take(i as int)),
        decreases flushes@.len() - i,
    {
        tracker.flush(&flushes[i]);
        proof {
            assert(views.take(i + 1).drop_last() =~= views.take(i as int));
        }
        i = i + 1;
    }
    assert(views.take(i as int) =~= views);
}

/// Flushes everything that a thread holds back into the bucket of the second in
/// which it was observed, unless that second has left the window and its bucket
/// belongs to a later one.
pub fn flush_thread_local(tracker: &mut LatencyTracker, thread: &mut ThreadBatch)
    requires
        old(tracker).wf(),
        old(thread)@.wf(old(tracker).config),
    ensures
        final(tracker).wf(),
        final(tracker).config == old(tracker).config,
        final(thread)@ == old(thread)@.drained(old(tracker).config),
        final(thread)@.wf(old(tracker).config),
        final(tracker)@ == after_drain(old(tracker)@, old(tracker).config, old(thread)@),
        stored(final(tracker)@, old(tracker).config) + final(thread).count <= stored(
            old(tracker)@,
            old(tracker).config,
        ) + old(thread).count,
{
    let config = tracker.config;
    proof {
        if thread.count > 0 {
            crate::batch::lemma_bucket_in_range(config, thread.start_sec);
            crate::flush_laws::law_flush_stores_at_most_its_counts(
                tracker@,
                config,
                thread@.flush_all(config),
            );
        }
    }
    if let Some(f) = thread.drain(&config) {
        tracker.flush(&f);
    }
}

/// The latency in milliseconds of a percentile of the observations that are
/// stored in the window that ends at the second `now`: zero above the
/// ninety-ninth percentile and for a window without observations.
pub fn latency_ms(tracker: &LatencyTracker, now: u64, percentile: u8) -> (ms: u64)
    requires
        tracker.wf(),
        percentile <= 99 ==> sum(tracker.counts_at(now)) <= u64::MAX,
    ensures
        ms == crate::window::percentile(
            tracker.config.layout,
            tracker.counts_at(now),
            percentile as nat,
        ),
{
    if percentile > 99 {
        return 0;
    }
    let bins = tracker.config.layout.bins();
    proof {
        crate::window::lemma_window_hist_len(tracker@, now, tracker.config.window, bins as nat);
    }
    match collect_window(&tracker.stripes, now, tracker.config.window, bins) {
        Some((totals, total)) => percentile_of(&tracker.config.layout, &totals, total, percentile),
        // A sum beyond `u64` is ruled out above.
        None => 0,
    }
}

} // verus!
