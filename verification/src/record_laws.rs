//! Laws of recording: what is recorded is what is read back, as long as it belongs
//! to the window.

use vstd::prelude::*;

use crate::batch::{BatchView, Flush, FlushView, ThreadBatch};
use crate::bucket::{Bucket, BucketView};
use crate::config::Config;
use crate::flush_laws::{fits, stored};
use crate::hist::{counts, merge, no_counts, sum, zeros};
use crate::rank::{percentile_rank, ranks_exactly};
use crate::tracker::{after_drain, after_flush, after_flushes, fresh, shaped, LatencyTracker};
use crate::window::{percentile, same_bins, window_hist};
use crate::window_laws::{ascending, hist_of};

verus! {

/// The counts in the window that ends at `later`.
pub open spec fn counts_in(stripes: Seq<Seq<BucketView>>, config: Config, later: u64) -> Seq<nat> {
    window_hist(stripes, later, config.window, config.layout.spec_bins())
}

/// A bucket is filed in place `b`: it belongs to a second of that place, no later
/// than `latest`, or it has never been used.
pub open spec fn is_filed(x: BucketView, config: Config, latest: u64, b: int) -> bool {
    &&& x.epoch <= latest
    &&& config.bucket_of(x.epoch) == b || (x.epoch == 0 && x.hist == zeros(x.hist.len()))
}

/// Every bucket is filed in its place.
pub open spec fn filed(stripes: Seq<Seq<BucketView>>, config: Config, latest: u64) -> bool {
    forall|s: int, b: int|
        0 <= s < stripes.len() && 0 <= b < config.spec_buckets() ==> is_filed(
            #[trigger] stripes[s][b],
            config,
            latest,
            b,
        )
}

/// The counts of a histogram of the second `sec`, as far as the window that ends
/// at `later` shows them.
pub open spec fn shown(hist: Seq<nat>, sec: u64, config: Config, later: u64) -> Seq<nat> {
    if later - sec <= config.window {
        hist
    } else {
        no_counts(config.layout.spec_bins())
    }
}

/// What a batch will add to the window that ends at `later` once it is flushed.
pub open spec fn pending(t: BatchView, config: Config, later: u64) -> Seq<nat> {
    shown(counts(t.hist), t.start_sec, config, later)
}

/// Two seconds that share a bucket are never in one window.
proof fn lemma_shared_bucket_expires(config: Config, early: u64, late: u64, later: u64)
    requires
        config.wf(),
        early < late <= later,
        late <= usize::MAX,
        config.bucket_of(early) == config.bucket_of(late),
    ensures
        later - early > config.window,
{
    if late - early <= config.window {
        crate::flush_laws::law_seconds_have_own_buckets(config, early, late);
    }
}

/// Flushing counts of a second into its bucket adds them to a window that ends no
/// earlier than `latest`, if the second belongs to it, and takes nothing from it.
/// Nothing stored or flushed is of a second after `latest`.
pub proof fn law_flush_conserves(
    stripes: Seq<Seq<BucketView>>,
    config: Config,
    f: FlushView,
    latest: u64,
    later: u64,
)
    requires
        config.wf(),
        shaped(stripes, config),
        filed(stripes, config, latest),
        f.wf(config),
        f.bucket == config.bucket_of(f.epoch),
        f.epoch <= latest <= later,
        latest <= usize::MAX,
        stored(stripes, config) + sum(counts(f.hist)) <= u64::MAX,
    ensures
        shaped(after_flush(stripes, f), config),
        filed(after_flush(stripes, f), config, latest),
        counts_in(after_flush(stripes, f), config, later) == merge(
            counts_in(stripes, config, later),
            shown(counts(f.hist), f.epoch, config, later),
        ),
{
    let (s, b) = (f.stripe as int, f.bucket as int);
    let (window, bins) = (config.window, config.layout.spec_bins());
    assert(same_bins(stripes[s], bins) && stripes[s].len() == config.spec_buckets());
    let old_bucket = stripes[s][b];
    assert(old_bucket.hist.len() == bins);
    assert(is_filed(old_bucket, config, latest, b));
    crate::tracker::lemma_flush_keeps_shape(stripes, config, f);
    let after = after_flush(stripes, f);
    let (x, y) = (counts_in(stripes, config, later), counts_in(after, config, later));
    crate::window::lemma_window_hist_len(stripes, later, window, bins);
    let more = shown(counts(f.hist), f.epoch, config, later);
    if old_bucket.epoch > f.epoch {
        lemma_shared_bucket_expires(config, f.epoch, old_bucket.epoch, later);
        assert(after[s] =~= stripes[s]);
        assert(after =~= stripes);
        assert(y =~= merge(x, more));
    } else {
        crate::window::lemma_window_hist_len(after, later, window, bins);
        let new_bucket = old_bucket.flushed(f.hist, f.epoch);
        if old_bucket.epoch == f.epoch {
            lemma_fits(stripes, config, f);
            crate::flush_laws::law_flush_of_the_same_second_adds(old_bucket, f.hist, f.epoch);
        } else if config.bucket_of(old_bucket.epoch) == b {
            lemma_shared_bucket_expires(config, old_bucket.epoch, f.epoch, later);
        }
        assert forall|i: int| 0 <= i < bins implies y[i] == x[i] + more[i] by {
            crate::window_laws::lemma_bucket_update(stripes, s, b, new_bucket, later, window, bins, i);
            if old_bucket.epoch == f.epoch {
                assert(counts(new_bucket.hist)[i] == merge(counts(old_bucket.hist), counts(f.hist))[i]);
            }
        }
        assert(y =~= merge(x, more));
        assert forall|r: int, c: int|
            0 <= r < after.len() && 0 <= c < config.spec_buckets() implies is_filed(
            #[trigger] after[r][c],
            config,
            latest,
            c,
        ) by {
            assert(is_filed(stripes[r][c], config, latest, c));
            assert(stripes[r].len() == config.spec_buckets());
        }
    }
}

proof fn lemma_fits(stripes: Seq<Seq<BucketView>>, config: Config, f: FlushView)
    requires
        config.wf(),
        shaped(stripes, config),
        f.wf(config),
        stored(stripes, config) + sum(counts(f.hist)) <= u64::MAX,
    ensures
        fits(stripes[f.stripe as int][f.bucket as int], f.hist),
{
    let (s, b) = (f.stripe as int, f.bucket as int);
    let bins = config.layout.spec_bins();
    assert(same_bins(stripes[s], bins) && stripes[s].len() == config.spec_buckets());
    let bucket = stripes[s][b];
    assert(bucket.hist.len() == bins);
    crate::window::lemma_window_hist_len(stripes, 0, config.window, bins);
    assert forall|i: int| 0 <= i < bins implies bucket.hist[i] + #[trigger] f.hist[i]
        <= u64::MAX by {
        crate::window_laws::lemma_bucket_within_window(stripes, s, b, 0, config.window, bins, i);
        crate::hist::lemma_bin_le_sum(counts_in(stripes, config, 0), i);
        crate::hist::lemma_bin_le_sum(counts(f.hist), i);
    }
}

/// The histogram with one more observation in `bin`.
pub open spec fn plus_one(hist: Seq<nat>, bin: nat) -> Seq<nat> {
    hist.update(bin as int, hist[bin as int] + 1)
}

/// The thread holds nothing of a second after `latest`.
pub open spec fn holds_until(t: BatchView, latest: u64) -> bool {
    t.count > 0 ==> t.start_sec <= latest
}

/// Flushing on demand moves what a thread holds back into a window that ends no
/// earlier than `latest`, if its second belongs to it, and takes nothing from it.
/// Nothing stored or held is of a second after `latest`.
pub proof fn law_drain_conserves(
    stripes: Seq<Seq<BucketView>>,
    config: Config,
    t: BatchView,
    latest: u64,
    later: u64,
)
    requires
        config.wf(),
        shaped(stripes, config),
        filed(stripes, config, latest),
        t.wf(config),
        holds_until(t, latest),
        latest <= later,
        latest <= usize::MAX,
        stored(stripes, config) + t.count <= u64::MAX,
    ensures
        shaped(after_drain(stripes, config, t), config),
        filed(after_drain(stripes, config, t), config, latest),
        t.drained(config).wf(config),
        t.drained(config).count == 0,
        stored(after_drain(stripes, config, t), config) <= stored(stripes, config) + t.count,
        counts_in(after_drain(stripes, config, t), config, later) == merge(
            counts_in(stripes, config, later),
            pending(t, config, later),
        ),
{
    let bins = config.layout.spec_bins();
    let x = counts_in(stripes, config, later);
    crate::batch::lemma_bucket_in_range(config, t.start_sec);
    crate::batch::lemma_emptied(config, t, 0);
    if t.count > 0 {
        law_flush_conserves(stripes, config, t.flush_all(config), latest, later);
        crate::flush_laws::law_flush_stores_at_most_its_counts(
            stripes,
            config,
            t.flush_all(config),
        );
    } else {
        crate::batch::lemma_nothing_held(config, t);
        crate::hist::lemma_sum_no_counts(bins);
        crate::window::lemma_window_hist_len(stripes, later, config.window, bins);
        assert(merge(x, pending(t, config, later)) =~= x);
    }
}

/// Flushing on demand a second time does nothing.
pub proof fn law_drain_twice(stripes: Seq<Seq<BucketView>>, config: Config, t: BatchView)
    ensures
        t.drained(config).drained(config) == t.drained(config),
        after_drain(after_drain(stripes, config, t), config, t.drained(config)) == after_drain(
            stripes,
            config,
            t,
        ),
{
}

/// Recording loses nothing and adds nothing: a window that ends no earlier than
/// `latest` and what the thread holds back for it together count exactly one
/// observation more, in the bin of the latency, if the second of the observation
/// belongs to the window, and are unchanged if it does not. That holds also where
/// the thread still held observations of another second. Nothing stored, held or
/// recorded is of a second after `latest`.
pub proof fn law_record_conserves(
    stripes: Seq<Seq<BucketView>>,
    config: Config,
    t: BatchView,
    now: u64,
    lat: nat,
    latest: u64,
    later: u64,
)
    requires
        config.wf(),
        shaped(stripes, config),
        filed(stripes, config, latest),
        t.wf(config),
        holds_until(t, latest),
        now <= latest <= later,
        latest <= usize::MAX,
        stored(stripes, config) + t.count < u64::MAX,
    ensures
        ({
            let after = after_flushes(stripes, t.flushes_of(config, now, lat));
            let next = t.observed(config, now, lat);
            let before = merge(counts_in(stripes, config, later), pending(t, config, later));
            &&& shaped(after, config)
            &&& filed(after, config, latest)
            &&& next.wf(config)
            &&& next.start_sec == now
            &&& merge(counts_in(after, config, later), pending(next, config, later)) == if later - now <= config.window {
                plus_one(before, config.layout.bin_of(lat))
            } else {
                before
            }
        }),
{
    let bins = config.layout.spec_bins();
    let bin = config.layout.bin_of(lat);
    let turned = t.turned(config, now);
    let counted = turned.counted(bin);
    let next = t.observed(config, now, lat);
    crate::bins::law_bin_monotone(config.layout, lat, lat);
    crate::batch::lemma_emptied(config, t, now);
    crate::batch::lemma_emptied(config, counted, now);
    crate::batch::lemma_counted(config, turned, bin);
    crate::batch::lemma_bucket_in_range(config, now);
    crate::hist::lemma_sum_no_counts(bins);
    crate::tracker::lemma_record_in_two_steps(stripes, config, t, now, lat);
    let start = counts_in(stripes, config, later);
    let before = merge(start, pending(t, config, later));
    let middle = if t.is_over(now) {
        law_drain_conserves(stripes, config, t, latest, later);
        after_drain(stripes, config, t)
    } else {
        stripes
    };
    let held = counts_in(middle, config, later);
    crate::window::lemma_window_hist_len(stripes, later, config.window, bins);
    crate::window::lemma_window_hist_len(middle, later, config.window, bins);
    assert(merge(held, pending(turned, config, later)) =~= before);
    assert(counts(counted.hist) =~= plus_one(counts(turned.hist), bin));
    let goal = if later - now <= config.window {
        plus_one(before, bin)
    } else {
        before
    };
    assert(merge(held, pending(counted, config, later)) =~= goal);
    if counted.count >= config.flush_every {
        law_flush_conserves(middle, config, counted.flush_all(config), latest, later);
        let after = after_flush(middle, counted.flush_all(config));
        crate::window::lemma_window_hist_len(after, later, config.window, bins);
        assert(merge(counts_in(after, config, later), pending(next, config, later)) =~= goal);
    }
}

/// An observation is counted while its second is in the window: recorded in `sec` and
/// flushed, it is counted by a read at `now` if and only if `now - sec <= window`, once
/// and in the bin of its latency. Everything else is counted as before.
pub proof fn law_observation_is_counted_while_in_window(
    stripes: Seq<Seq<BucketView>>,
    config: Config,
    t: BatchView,
    sec: u64,
    lat: nat,
    now: u64,
    bin: int,
)
    requires
        config.wf(),
        shaped(stripes, config),
        filed(stripes, config, now),
        t.wf(config),
        t.count == 0,
        sec <= now,
        now <= usize::MAX,
        stored(stripes, config) < u64::MAX,
        0 <= bin < config.layout.spec_bins(),
    ensures
        ({
            let recorded = after_flushes(stripes, t.flushes_of(config, sec, lat));
            let end = after_drain(recorded, config, t.observed(config, sec, lat));
            let bins = config.layout.spec_bins();
            &&& window_hist(end, now, config.window, bins)[bin] == window_hist(
                stripes,
                now,
                config.window,
                bins,
            )[bin] + if now - sec <= config.window && bin == config.layout.bin_of(lat) {
                1nat
            } else {
                0nat
            }
            &&& sum(window_hist(end, now, config.window, bins)) == sum(
                window_hist(stripes, now, config.window, bins),
            ) + if now - sec <= config.window {
                1nat
            } else {
                0nat
            }
        }),
{
    let bins = config.layout.spec_bins();
    let recorded = after_flushes(stripes, t.flushes_of(config, sec, lat));
    let next = t.observed(config, sec, lat);
    let end = after_drain(recorded, config, next);
    let before = counts_in(stripes, config, now);
    crate::bins::law_bin_monotone(config.layout, lat, lat);
    law_record_conserves(stripes, config, t, sec, lat, now, now);
    crate::flush_laws::law_record_counts_at_most_once(stripes, config, t, sec, lat);
    law_drain_conserves(recorded, config, next, now, now);
    crate::batch::lemma_nothing_held(config, t);
    crate::hist::lemma_sum_no_counts(bins);
    crate::window::lemma_window_hist_len(stripes, now, config.window, bins);
    assert(merge(before, pending(t, config, now)) =~= before);
    let at = config.layout.bin_of(lat) as int;
    crate::hist::lemma_sum_update(before, at, before[at] + 1);
}

/// What recording writes, case by case. Within a second the observation joins the batch
/// and nothing is flushed, unless it is the one that fills the batch: then the batch is
/// flushed into the bucket of the second, observation and all. In another second,
/// whatever was held is flushed into the bucket of its own second first, and a new
/// batch begins with the observation. A thread keeps its stripe.
pub proof fn law_record_writes(
    stripes: Seq<Seq<BucketView>>,
    config: Config,
    t: BatchView,
    now: u64,
    lat: nat,
)
    requires
        config.wf(),
        t.wf(config),
        now <= usize::MAX,
        t.start_sec <= usize::MAX,
    ensures
        ({
            let after = after_flushes(stripes, t.flushes_of(config, now, lat));
            let next = t.observed(config, now, lat);
            let bin = config.layout.bin_of(lat) as int;
            let buckets = config.window + 1;
            let to = |sec: u64, hist: Seq<u64>|
                FlushView {
                    stripe: t.stripe,
                    bucket: (sec as int % buckets) as usize,
                    epoch: sec,
                    hist,
                };
            let none = Seq::new(config.layout.spec_bins(), |i: int| 0u64);
            let one = none.update(bin, 1u64);
            let more = t.hist.update(bin, (t.hist[bin] + 1) as u64);
            &&& next.stripe == t.stripe
            &&& next.start_sec == now
            &&& t.start_sec == now && t.count + 1 < config.flush_every ==> {
                &&& after == stripes
                &&& next.count == t.count + 1
                &&& next.hist == more
            }
            &&& t.start_sec == now && t.count + 1 >= config.flush_every ==> {
                &&& after == after_flush(stripes, to(now, more))
                &&& next.count == 0
                &&& next.hist == none
            }
            &&& t.start_sec != now && config.flush_every > 1 ==> {
                &&& after == if t.count > 0 {
                    after_flush(stripes, to(t.start_sec, t.hist))
                } else {
                    stripes
                }
                &&& next.count == 1
                &&& next.hist == one
            }
            &&& t.start_sec != now && config.flush_every == 1 ==> {
                &&& after == after_flush(stripes, to(now, one))
                &&& next.count == 0
                &&& next.hist == none
            }
        }),
{
    let bin = config.layout.bin_of(lat);
    let none = Seq::new(config.layout.spec_bins(), |i: int| 0u64);
    crate::bins::law_bin_monotone(config.layout, lat, lat);
    crate::tracker::lemma_record_in_two_steps(stripes, config, t, now, lat);
    crate::config_laws::law_buckets_are_used_in_turn(config, now);
    crate::config_laws::law_buckets_are_used_in_turn(config, t.start_sec);
    crate::batch::lemma_counted(config, t, bin);
    assert(zeros(config.layout.spec_bins()) =~= none);
    assert(none.update(bin as int, (none[bin as int] + 1) as u64) =~= none.update(bin as int, 1u64));
}

/// What flushing on demand writes: all that was held goes into the bucket of the second
/// in which it was observed, and the thread holds nothing. Where nothing was held,
/// nothing changes.
pub proof fn law_drain_writes(stripes: Seq<Seq<BucketView>>, config: Config, t: BatchView)
    requires
        config.wf(),
        t.start_sec <= usize::MAX,
    ensures
        t.drained(config).stripe == t.stripe,
        t.drained(config).count == 0,
        t.count > 0 ==> {
            &&& after_drain(stripes, config, t) == after_flush(
                stripes,
                FlushView {
                    stripe: t.stripe,
                    bucket: (t.start_sec as int % (config.window + 1)) as usize,
                    epoch: t.start_sec,
                    hist: t.hist,
                },
            )
            &&& t.drained(config).start_sec == 0
            &&& t.drained(config).hist == Seq::new(config.layout.spec_bins(), |i: int| 0u64)
        },
        t.count == 0 ==> after_drain(stripes, config, t) == stripes && t.drained(config) == t,
{
    crate::config_laws::law_buckets_are_used_in_turn(config, t.start_sec);
    assert(zeros(config.layout.spec_bins()) =~= Seq::new(
        config.layout.spec_bins(),
        |i: int| 0u64,
    ));
}

/// What a tracker shows at `now` is what its own buckets hold for the window of its own
/// configuration that ends then: changing one bucket changes what is shown by that
/// bucket's counts, if and only if `now` is at most a window after its second.
pub proof fn law_tracker_reads_its_window(
    with: LatencyTracker,
    without: LatencyTracker,
    now: u64,
    s: int,
    b: int,
    i: int,
)
    requires
        with.config.wf(),
        without.config == with.config,
        shaped(with@, with.config),
        0 <= s < with.config.stripes,
        0 <= b < with.config.spec_buckets(),
        0 <= i < with.config.layout.spec_bins(),
        without@ == with@.update(
            s,
            with@[s].update(
                b,
                BucketView {
                    epoch: with@[s][b].epoch,
                    hist: Seq::new(with.config.layout.spec_bins(), |j: int| 0u64),
                },
            ),
        ),
    ensures
        with.counts_at(now).len() == with.config.layout.spec_bins(),
        with.counts_at(now)[i] == without.counts_at(now)[i] + if now <= with@[s][b].epoch
            + with.config.window {
            with@[s][b].hist[i] as nat
        } else {
            0
        },
        with.counts_at(now) == counts_in(with@, with.config, now),
{
    let config = with.config;
    let x = with@[s][b];
    assert(same_bins(with@[s], config.layout.spec_bins()));
    assert(with@[s].len() == config.spec_buckets());
    assert(x.hist.len() == config.layout.spec_bins());
    assert(with@[s].update(b, x) =~= with@[s]);
    assert(with@.update(s, with@[s].update(b, x)) =~= with@);
    crate::window::lemma_window_hist_len(with@, now, config.window, config.layout.spec_bins());
    crate::window_laws::law_bucket_counts_while_in_window(
        with@,
        s,
        b,
        x,
        now,
        config.window,
        config.layout.spec_bins(),
        i,
    );
}

/// Trackers can be used exactly if their configuration can, and they have its stripes,
/// with a bucket for each second of the window and one more in each, and its bins in
/// every bucket.
pub proof fn law_usable_trackers(tracker: LatencyTracker)
    ensures
        tracker.wf() <==> {
            &&& tracker.config.wf()
            &&& tracker.stripes@.len() == tracker.config.stripes
            &&& forall|s: int|
                0 <= s < tracker.stripes@.len() ==> (#[trigger] tracker.stripes@[s])@.len()
                    == tracker.config.window + 1
            &&& forall|s: int, b: int|
                0 <= s < tracker.stripes@.len() && 0 <= b < tracker.stripes@[s]@.len() ==> (
                #[trigger] tracker.stripes@[s]@[b]).hist@.len()
                    == tracker.config.layout.spec_bins()
        },
{
    let config = tracker.config;
    let bins = config.layout.spec_bins();
    if tracker.wf() {
        assert forall|s: int| 0 <= s < tracker.stripes@.len() implies (
        #[trigger] tracker.stripes@[s])@.len() == config.window + 1 by {
            assert(tracker@[s].len() == config.spec_buckets());
        }
        assert forall|s: int, b: int|
            0 <= s < tracker.stripes@.len() && 0 <= b < tracker.stripes@[s]@.len() implies (
        #[trigger] tracker.stripes@[s]@[b]).hist@.len() == bins by {
            assert(same_bins(tracker@[s], bins));
            assert(tracker@[s][b].hist.len() == bins);
        }
    }
    if config.wf() && tracker.stripes@.len() == config.stripes && (forall|s: int|
        0 <= s < tracker.stripes@.len() ==> (#[trigger] tracker.stripes@[s])@.len() == config.window
            + 1) && (forall|s: int, b: int|
        0 <= s < tracker.stripes@.len() && 0 <= b < tracker.stripes@[s]@.len() ==> (
        #[trigger] tracker.stripes@[s]@[b]).hist@.len() == bins) {
        assert forall|s: int| 0 <= s < tracker@.len() implies (#[trigger] tracker@[s]).len()
            == config.spec_buckets() && same_bins(tracker@[s], bins) by {
            assert(tracker.stripes@[s]@.len() == config.window + 1);
            assert forall|b: int| 0 <= b < tracker@[s].len() implies (
            #[trigger] tracker@[s][b]).hist.len() == bins by {
                assert(tracker.stripes@[s]@[b].hist@.len() == bins);
            }
        }
    }
}

/// Views show things as they are: a tracker's view has its buckets in their places, and
/// the views of a bucket, a batch and a flush have their fields.
pub proof fn law_views_show_everything(
    tracker: LatencyTracker,
    s: int,
    b: int,
    bucket: Bucket,
    batch: ThreadBatch,
    flush: Flush,
)
    requires
        0 <= s < tracker.stripes@.len(),
        0 <= b < tracker.stripes@[s]@.len(),
    ensures
        tracker@.len() == tracker.stripes@.len(),
        tracker@[s].len() == tracker.stripes@[s]@.len(),
        tracker@[s][b].epoch == tracker.stripes@[s]@[b].epoch,
        tracker@[s][b].hist == tracker.stripes@[s]@[b].hist@,
        bucket@ == (BucketView { epoch: bucket.epoch, hist: bucket.hist@ }),
        batch@ == (BatchView {
            stripe: batch.stripe,
            hist: batch.hist@,
            count: batch.count,
            start_sec: batch.start_sec,
        }),
        flush@ == (FlushView {
            stripe: flush.stripe,
            bucket: flush.bucket,
            epoch: flush.epoch,
            hist: flush.hist@,
        }),
{
}

/// What a thread does at a time.
pub enum Action {
    Record { lat: nat },
    Flush,
}

/// One thread does something in the second `now`.
pub struct Step {
    pub now: u64,
    pub thread: int,
    pub action: Action,
}

/// A tracker's stripes and the batches of the threads that record into it.
#[verifier::ext_equal]
pub struct Shared {
    pub stripes: Seq<Seq<BucketView>>,
    pub threads: Seq<BatchView>,
}

impl Shared {
    /// A new tracker and threads that have not recorded yet.
    pub open spec fn is_new(self, config: Config) -> bool {
        &&& self.stripes == fresh(config)
        &&& self.holds_nothing(config)
    }

    /// No thread holds anything back.
    pub open spec fn holds_nothing(self, config: Config) -> bool {
        forall|k: int|
            0 <= k < self.threads.len() ==> (#[trigger] self.threads[k]).wf(config)
                && self.threads[k].count == 0
    }

    /// Everything stored and held is of seconds up to `latest`, and in its place.
    pub open spec fn wf(self, config: Config, latest: u64) -> bool {
        &&& shaped(self.stripes, config)
        &&& filed(self.stripes, config, latest)
        &&& forall|k: int|
            0 <= k < self.threads.len() ==> (#[trigger] self.threads[k]).wf(config) && holds_until(
                self.threads[k],
                latest,
            )
    }

    /// The counts in the window that ends at `later`, with those that the threads
    /// still hold back for it.
    pub open spec fn known(self, config: Config, later: u64) -> Seq<nat> {
        merge(counts_in(self.stripes, config, later), all_pending(self.threads, config, later))
    }

    /// Number of observations stored and held.
    pub open spec fn load(self, config: Config) -> nat {
        stored(self.stripes, config) + all_held(self.threads)
    }

    /// The state after a step.
    pub open spec fn after(self, config: Config, step: Step) -> Shared {
        let t = self.threads[step.thread];
        match step.action {
            Action::Record { lat } => Shared {
                stripes: after_flushes(self.stripes, t.flushes_of(config, step.now, lat)),
                threads: self.threads.update(step.thread, t.observed(config, step.now, lat)),
            },
            Action::Flush => Shared {
                stripes: after_drain(self.stripes, config, t),
                threads: self.threads.update(step.thread, t.drained(config)),
            },
        }
    }

    /// The state after a run of steps.
    pub open spec fn run(self, config: Config, steps: Seq<Step>) -> Shared
        decreases steps.len(),
    {
        if steps.len() == 0 {
            self
        } else {
            self.run(config, steps.drop_last()).after(config, steps.last())
        }
    }
}

/// What a step flushes.
pub open spec fn flushed_by(start: Shared, config: Config, step: Step) -> Seq<FlushView> {
    let t = start.threads[step.thread];
    match step.action {
        Action::Record { lat } => t.flushes_of(config, step.now, lat),
        Action::Flush => if t.count > 0 {
            seq![t.flush_all(config)]
        } else {
            seq![]
        },
    }
}

/// No step of a run flushes anything.
pub open spec fn flushes_nothing(start: Shared, config: Config, steps: Seq<Step>) -> bool
    decreases steps.len(),
{
    steps.len() > 0 ==> {
        let init = steps.drop_last();
        &&& flushes_nothing(start, config, init)
        &&& flushed_by(start.run(config, init), config, steps.last()).len() == 0
    }
}

/// A new tracker has its full size and is empty: every bucket is of second zero and
/// counts nothing. It stays so until the first flush, however much is recorded.
pub proof fn law_empty_until_the_first_flush(
    start: Shared,
    config: Config,
    steps: Seq<Step>,
    s: int,
    b: int,
    bin: int,
)
    requires
        start.is_new(config),
        flushes_nothing(start, config, steps),
        0 <= s < config.stripes,
        0 <= b < config.spec_buckets(),
        0 <= bin < config.layout.spec_bins(),
    ensures
        start.run(config, steps).stripes == fresh(config),
        fresh(config).len() == config.stripes,
        fresh(config)[s].len() == config.window + 1,
        fresh(config)[s][b].hist.len() == config.layout.spec_bins(),
        start.run(config, steps).stripes[s][b].epoch == 0,
        start.run(config, steps).stripes[s][b].hist[bin] == 0,
    decreases steps.len(),
{
    if steps.len() > 0 {
        law_empty_until_the_first_flush(start, config, steps.drop_last(), s, b, bin);
    }
}

/// Memory is constant: however much is recorded, for however long, a tracker keeps the
/// stripes, buckets and counters that its configuration gives it, and every thread one
/// histogram that holds less than a full batch.
pub proof fn law_memory_is_constant(start: Shared, config: Config, steps: Seq<Step>)
    requires
        config.wf(),
        shaped(start.stripes, config),
        forall|k: int| 0 <= k < start.threads.len() ==> (#[trigger] start.threads[k]).wf(config),
        forall|i: int|
            0 <= i < steps.len() ==> 0 <= (#[trigger] steps[i]).thread < start.threads.len(),
    ensures
        ({
            let end = start.run(config, steps);
            &&& end.stripes.len() == config.stripes
            &&& forall|s: int|
                0 <= s < config.stripes ==> (#[trigger] end.stripes[s]).len() == config.window + 1
            &&& forall|s: int, b: int|
                0 <= s < config.stripes && 0 <= b < config.window + 1 ==> (
                #[trigger] end.stripes[s][b]).hist.len() == config.layout.spec_bins()
            &&& end.threads.len() == start.threads.len()
            &&& forall|k: int|
                0 <= k < end.threads.len() ==> (#[trigger] end.threads[k]).wf(config)
        }),
{
    lemma_run_keeps_shape(start, config, steps);
    let end = start.run(config, steps);
    assert forall|s: int, b: int| 0 <= s < config.stripes && 0 <= b < config.window + 1 implies (
    #[trigger] end.stripes[s][b]).hist.len() == config.layout.spec_bins() by {
        assert(same_bins(end.stripes[s], config.layout.spec_bins()));
        assert(end.stripes[s].len() == config.spec_buckets());
    }
}

proof fn lemma_run_keeps_shape(start: Shared, config: Config, steps: Seq<Step>)
    requires
        config.wf(),
        shaped(start.stripes, config),
        forall|k: int| 0 <= k < start.threads.len() ==> (#[trigger] start.threads[k]).wf(config),
        forall|i: int|
            0 <= i < steps.len() ==> 0 <= (#[trigger] steps[i]).thread < start.threads.len(),
    ensures
        shaped(start.run(config, steps).stripes, config),
        start.run(config, steps).threads.len() == start.threads.len(),
        forall|k: int|
            0 <= k < start.threads.len() ==> (#[trigger] start.run(config, steps).threads[k]).wf(
                config,
            ),
    decreases steps.len(),
{
    if steps.len() > 0 {
        let init = steps.drop_last();
        let step = steps.last();
        assert(step == steps[steps.len() - 1]);
        assert forall|i: int| 0 <= i < init.len() implies 0 <= (#[trigger] init[i]).thread
            < start.threads.len() by {
            assert(init[i] == steps[i]);
        }
        lemma_run_keeps_shape(start, config, init);
        let middle = start.run(config, init);
        let t = middle.threads[step.thread];
        assert(t.wf(config));
        crate::batch::lemma_bucket_in_range(config, t.start_sec);
        crate::batch::lemma_emptied(config, t, 0);
        if t.count > 0 {
            crate::tracker::lemma_flush_keeps_shape(middle.stripes, config, t.flush_all(config));
        }
        if let Action::Record { lat } = step.action {
            let turned = t.turned(config, step.now);
            let bin = config.layout.bin_of(lat);
            let next = turned.counted(bin);
            crate::bins::law_bin_monotone(config.layout, lat, lat);
            crate::batch::lemma_emptied(config, t, step.now);
            crate::batch::lemma_counted(config, turned, bin);
            crate::batch::lemma_emptied(config, next, step.now);
            crate::batch::lemma_bucket_in_range(config, step.now);
            crate::tracker::lemma_record_in_two_steps(middle.stripes, config, t, step.now, lat);
            let drained = if t.is_over(step.now) {
                after_drain(middle.stripes, config, t)
            } else {
                middle.stripes
            };
            if next.count >= config.flush_every {
                crate::tracker::lemma_flush_keeps_shape(drained, config, next.flush_all(config));
            }
        }
    }
}

/// What threads hold back for the window that ends at `later`.
pub open spec fn all_pending(threads: Seq<BatchView>, config: Config, later: u64) -> Seq<nat>
    decreases threads.len(),
{
    if threads.len() == 0 {
        no_counts(config.layout.spec_bins())
    } else {
        merge(
            all_pending(threads.drop_last(), config, later),
            pending(threads.last(), config, later),
        )
    }
}

/// Number of observations that threads hold back.
pub open spec fn all_held(threads: Seq<BatchView>) -> nat
    decreases threads.len(),
{
    if threads.len() == 0 {
        0
    } else {
        all_held(threads.drop_last()) + threads.last().count as nat
    }
}

/// The latencies recorded in seconds that belong to the window that ends at
/// `later`.
pub open spec fn visible(steps: Seq<Step>, later: u64, window: u64) -> Seq<nat>
    decreases steps.len(),
{
    if steps.len() == 0 {
        seq![]
    } else {
        let earlier = visible(steps.drop_last(), later, window);
        match steps.last().action {
            Action::Record { lat } => if later - steps.last().now <= window {
                earlier.push(lat)
            } else {
                earlier
            },
            Action::Flush => earlier,
        }
    }
}

/// Number of recordings in a run.
pub open spec fn recordings(steps: Seq<Step>) -> nat
    decreases steps.len(),
{
    if steps.len() == 0 {
        0
    } else {
        recordings(steps.drop_last()) + match steps.last().action {
            Action::Record { .. } => 1nat,
            Action::Flush => 0nat,
        }
    }
}

/// Every step is of one of `threads` threads, in a second up to `latest`.
pub open spec fn within(steps: Seq<Step>, threads: nat, latest: u64) -> bool {
    forall|i: int|
        0 <= i < steps.len() ==> 0 <= (#[trigger] steps[i]).thread < threads && steps[i].now
            <= latest
}

proof fn lemma_pending_len(threads: Seq<BatchView>, config: Config, later: u64)
    ensures
        all_pending(threads, config, later).len() == config.layout.spec_bins(),
    decreases threads.len(),
{
    if threads.len() > 0 {
        lemma_pending_len(threads.drop_last(), config, later);
    }
}

/// Replacing one batch replaces what it adds to the totals.
proof fn lemma_thread_update(
    threads: Seq<BatchView>,
    k: int,
    t: BatchView,
    config: Config,
    later: u64,
)
    requires
        0 <= k < threads.len(),
        forall|j: int| 0 <= j < threads.len() ==> (#[trigger] threads[j]).wf(config),
        t.wf(config),
    ensures
        all_held(threads.update(k, t)) + threads[k].count == all_held(threads) + t.count,
        merge(
            all_pending(threads.update(k, t), config, later),
            pending(threads[k], config, later),
        ) == merge(all_pending(threads, config, later), pending(t, config, later)),
    decreases threads.len(),
{
    let init = threads.drop_last();
    let changed = threads.update(k, t);
    let bins = config.layout.spec_bins();
    lemma_pending_len(init, config, later);
    lemma_pending_len(changed.drop_last(), config, later);
    assert(threads[threads.len() - 1].wf(config));
    assert(threads[k].wf(config));
    let x = merge(all_pending(changed, config, later), pending(threads[k], config, later));
    let y = merge(all_pending(threads, config, later), pending(t, config, later));
    if k == threads.len() - 1 {
        assert(changed.drop_last() =~= init);
    } else {
        assert(changed.drop_last() =~= init.update(k, t));
        assert forall|j: int| 0 <= j < init.len() implies (#[trigger] init[j]).wf(config) by {
            assert(threads[j].wf(config));
        }
        lemma_thread_update(init, k, t, config, later);
        let a = merge(
            all_pending(init.update(k, t), config, later),
            pending(threads[k], config, later),
        );
        let b = merge(all_pending(init, config, later), pending(t, config, later));
        assert forall|i: int| 0 <= i < bins implies x[i] == y[i] by {
            assert(a[i] == b[i]);
        }
    }
    assert(x =~= y);
}

proof fn lemma_held_by_one(threads: Seq<BatchView>, k: int)
    requires
        0 <= k < threads.len(),
    ensures
        threads[k].count <= all_held(threads),
    decreases threads.len(),
{
    if k < threads.len() - 1 {
        lemma_held_by_one(threads.drop_last(), k);
    }
}

proof fn lemma_nothing_held_by(threads: Seq<BatchView>, config: Config, later: u64)
    requires
        forall|k: int|
            0 <= k < threads.len() ==> (#[trigger] threads[k]).wf(config) && threads[k].count == 0,
    ensures
        all_pending(threads, config, later) == no_counts(config.layout.spec_bins()),
        all_held(threads) == 0,
    decreases threads.len(),
{
    let bins = config.layout.spec_bins();
    if threads.len() > 0 {
        let init = threads.drop_last();
        assert forall|k: int| 0 <= k < init.len() implies (#[trigger] init[k]).wf(config)
            && init[k].count == 0 by {
            assert(threads[k].wf(config));
        }
        lemma_nothing_held_by(init, config, later);
        assert(threads[threads.len() - 1].wf(config));
        crate::batch::lemma_nothing_held(config, threads.last());
        crate::hist::lemma_sum_no_counts(bins);
        assert(merge(no_counts(bins), no_counts(bins)) =~= no_counts(bins));
    }
}

/// One step by any thread: everything stays in its place, and what is known of a
/// window that ends no earlier than `latest` grows by exactly the recorded latency,
/// if its second belongs to the window.
pub proof fn law_step_conserves(
    start: Shared,
    config: Config,
    step: Step,
    latest: u64,
    later: u64,
)
    requires
        config.wf(),
        start.wf(config, latest),
        0 <= step.thread < start.threads.len(),
        step.now <= latest <= later,
        latest <= usize::MAX,
        start.load(config) < u64::MAX || (step.action is Flush && start.load(config) <= u64::MAX),
    ensures
        ({
            let end = start.after(config, step);
            &&& end.wf(config, latest)
            &&& end.threads.len() == start.threads.len()
            &&& match step.action {
                Action::Record { lat } => {
                    &&& end.load(config) <= start.load(config) + 1
                    &&& end.known(config, later) == if later - step.now <= config.window {
                        plus_one(start.known(config, later), config.layout.bin_of(lat))
                    } else {
                        start.known(config, later)
                    }
                },
                Action::Flush => {
                    &&& end.load(config) <= start.load(config)
                    &&& end.known(config, later) == start.known(config, later)
                },
            }
        }),
{
    let k = step.thread;
    let t = start.threads[k];
    let bins = config.layout.spec_bins();
    let end = start.after(config, step);
    assert(t.wf(config) && holds_until(t, latest));
    assert forall|j: int| 0 <= j < start.threads.len() implies (#[trigger] start.threads[j]).wf(
        config,
    ) by {}
    lemma_held_by_one(start.threads, k);
    let next = end.threads[k];
    let x = start.known(config, later);
    let y = end.known(config, later);
    match step.action {
        Action::Record { lat } => {
            law_record_conserves(start.stripes, config, t, step.now, lat, latest, later);
            crate::flush_laws::law_record_counts_at_most_once(
                start.stripes,
                config,
                t,
                step.now,
                lat,
            );
            crate::bins::law_bin_monotone(config.layout, lat, lat);
        },
        Action::Flush => {
            law_drain_conserves(start.stripes, config, t, latest, later);
        },
    }
    lemma_thread_update(start.threads, k, next, config, later);
    lemma_pending_len(start.threads, config, later);
    lemma_pending_len(end.threads, config, later);
    crate::window::lemma_window_hist_len(start.stripes, later, config.window, bins);
    crate::window::lemma_window_hist_len(end.stripes, later, config.window, bins);
    let a = merge(counts_in(start.stripes, config, later), pending(t, config, later));
    let b = merge(counts_in(end.stripes, config, later), pending(next, config, later));
    let goal = match step.action {
        Action::Record { lat } => if later - step.now <= config.window {
            plus_one(x, config.layout.bin_of(lat))
        } else {
            x
        },
        Action::Flush => x,
    };
    crate::hist::lemma_sum_no_counts(bins);
    assert forall|i: int| 0 <= i < bins implies y[i] == goal[i] by {
        let p = merge(
            all_pending(end.threads, config, later),
            pending(t, config, later),
        );
        let q = merge(
            all_pending(start.threads, config, later),
            pending(next, config, later),
        );
        assert(p[i] == q[i]);
        match step.action {
            Action::Record { lat } => {
                let c = if later - step.now <= config.window {
                    plus_one(a, config.layout.bin_of(lat))
                } else {
                    a
                };
                assert(b[i] == c[i]);
            },
            Action::Flush => {
                crate::batch::lemma_nothing_held(config, next);
                assert(counts_in(end.stripes, config, later)[i] == a[i]);
            },
        }
    }
    assert(y =~= goal);
    assert forall|j: int| 0 <= j < end.threads.len() implies (#[trigger] end.threads[j]).wf(config)
        && holds_until(end.threads[j], latest) by {
        assert(start.threads[j].wf(config) && holds_until(start.threads[j], latest));
    }
}

/// The rolling window. Any number of threads record and flush, in seconds up to
/// `latest` that may come in any order, and may carry observations over into other
/// seconds. What is known of a window that ends no earlier than `latest`, stored or
/// still held back, grows by exactly the latencies that were recorded in the seconds
/// of that window.
pub proof fn law_window_keeps_its_recordings(
    start: Shared,
    config: Config,
    steps: Seq<Step>,
    latest: u64,
    later: u64,
)
    requires
        config.wf(),
        start.wf(config, latest),
        within(steps, start.threads.len(), latest),
        latest <= later,
        latest <= usize::MAX,
        start.load(config) + recordings(steps) <= u64::MAX,
    ensures
        start.run(config, steps).wf(config, latest),
        start.run(config, steps).threads.len() == start.threads.len(),
        start.run(config, steps).load(config) <= start.load(config) + recordings(steps),
        start.run(config, steps).known(config, later) == merge(
            start.known(config, later),
            hist_of(config.layout, visible(steps, later, config.window)),
        ),
    decreases steps.len(),
{
    let bins = config.layout.spec_bins();
    let layout = config.layout;
    crate::window::lemma_window_hist_len(start.stripes, later, config.window, bins);
    if steps.len() == 0 {
        assert(merge(start.known(config, later), no_counts(bins)) =~= start.known(config, later));
    } else {
        let init = steps.drop_last();
        let step = steps.last();
        assert(step == steps[steps.len() - 1]);
        assert forall|i: int| 0 <= i < init.len() implies 0 <= (#[trigger] init[i]).thread
            < start.threads.len() && init[i].now <= latest by {
            assert(init[i] == steps[i]);
        }
        law_window_keeps_its_recordings(start, config, init, latest, later);
        law_step_conserves(start.run(config, init), config, step, latest, later);
        let seen = visible(init, later, config.window);
        crate::window_laws::law_histogram_counts_every_latency(layout, seen);
        if let Action::Record { lat } = step.action {
            crate::bins::law_bin_monotone(layout, lat, lat);
            assert(seen.push(lat).drop_last() =~= seen);
        }
        assert(start.run(config, steps).known(config, later) =~= merge(
            start.known(config, later),
            hist_of(layout, visible(steps, later, config.window)),
        ));
    }
}

proof fn lemma_new_wf(start: Shared, config: Config, latest: u64, later: u64)
    requires
        config.wf(),
        start.is_new(config),
    ensures
        start.wf(config, latest),
        start.load(config) == 0,
        start.known(config, later) == no_counts(config.layout.spec_bins()),
{
    let bins = config.layout.spec_bins();
    crate::tracker::lemma_fresh(config, later);
    crate::tracker::lemma_fresh(config, 0);
    crate::hist::lemma_sum_no_counts(bins);
    lemma_nothing_held_by(start.threads, config, later);
    assert(start.known(config, later) =~= no_counts(bins));
    assert forall|s: int, b: int|
        0 <= s < start.stripes.len() && 0 <= b < config.spec_buckets() implies is_filed(
        #[trigger] start.stripes[s][b],
        config,
        latest,
        b,
    ) by {
        let x = start.stripes[s][b];
        assert(x.hist =~= zeros(x.hist.len()));
    }
}

/// What threads record into a new tracker is what it shows. Whenever no thread holds
/// anything back, a window that ends no earlier than `latest` shows the histogram
/// of exactly the latencies that were recorded in its seconds.
pub proof fn law_window_shows_its_recordings(
    start: Shared,
    config: Config,
    steps: Seq<Step>,
    latest: u64,
    later: u64,
)
    requires
        config.wf(),
        start.is_new(config),
        within(steps, start.threads.len(), latest),
        latest <= later,
        latest <= usize::MAX,
        recordings(steps) <= u64::MAX,
        start.run(config, steps).holds_nothing(config),
    ensures
        counts_in(start.run(config, steps).stripes, config, later) == hist_of(
            config.layout,
            visible(steps, later, config.window),
        ),
{
    let bins = config.layout.spec_bins();
    let end = start.run(config, steps);
    lemma_new_wf(start, config, latest, later);
    law_window_keeps_its_recordings(start, config, steps, latest, later);
    lemma_nothing_held_by(end.threads, config, later);
    crate::window::lemma_window_hist_len(end.stripes, later, config.window, bins);
    crate::window_laws::law_histogram_counts_every_latency(
        config.layout,
        visible(steps, later, config.window),
    );
    assert(end.known(config, later) =~= counts_in(end.stripes, config, later));
    assert(merge(no_counts(bins), hist_of(config.layout, visible(steps, later, config.window)))
        =~= hist_of(config.layout, visible(steps, later, config.window)));
}

/// Every thread flushes on demand in the second `now`, one after the other.
pub open spec fn flush_each(threads: nat, now: u64) -> Seq<Step>
    decreases threads,
{
    if threads == 0 {
        seq![]
    } else {
        let last = (threads - 1) as nat;
        flush_each(last, now).push(Step { now, thread: last as int, action: Action::Flush })
    }
}

proof fn lemma_flush_each(start: Shared, config: Config, steps: Seq<Step>, n: nat, latest: u64)
    requires
        config.wf(),
        start.is_new(config),
        within(steps, start.threads.len(), latest),
        latest <= usize::MAX,
        recordings(steps) <= u64::MAX,
        n <= start.threads.len(),
    ensures
        ({
            let all = steps + flush_each(n, latest);
            let end = start.run(config, all);
            &&& within(all, start.threads.len(), latest)
            &&& recordings(all) == recordings(steps)
            &&& forall|later: u64, window: u64|
                #![auto]
                visible(all, later, window) == visible(steps, later, window)
            &&& end.wf(config, latest)
            &&& end.threads.len() == start.threads.len()
            &&& forall|k: int| 0 <= k < n ==> (#[trigger] end.threads[k]).count == 0
        }),
    decreases n,
{
    let all = steps + flush_each(n, latest);
    let end = start.run(config, all);
    lemma_new_wf(start, config, latest, latest);
    if n == 0 {
        assert(all =~= steps);
    } else {
        let last = (n - 1) as nat;
        lemma_flush_each(start, config, steps, last, latest);
        let before = steps + flush_each(last, latest);
        assert(all.drop_last() =~= before);
        let step = Step { now: latest, thread: last as int, action: Action::Flush };
        assert(all =~= before.push(step));
        let middle = start.run(config, before);
        law_window_keeps_its_recordings(start, config, before, latest, latest);
        assert(end == middle.after(config, step));
        let t = middle.threads[last as int];
        assert(t.wf(config));
        crate::batch::lemma_emptied(config, t, 0);
        assert forall|k: int| 0 <= k < n implies (#[trigger] end.threads[k]).count == 0 by {
            if k < last {
                assert(middle.threads[k].count == 0);
            }
        }
    }
    law_window_keeps_its_recordings(start, config, all, latest, latest);
}

/// Nothing stays hidden: however the threads recorded before, once each has flushed
/// on demand a window that ends no earlier than `latest` shows the histogram of
/// exactly the latencies that were recorded in its seconds.
pub proof fn law_flushed_window_shows_its_recordings(
    start: Shared,
    config: Config,
    steps: Seq<Step>,
    latest: u64,
    later: u64,
)
    requires
        config.wf(),
        start.is_new(config),
        within(steps, start.threads.len(), latest),
        latest <= later,
        latest <= usize::MAX,
        recordings(steps) <= u64::MAX,
    ensures
        ({
            let end = start.run(config, steps + flush_each(start.threads.len(), latest));
            &&& end.holds_nothing(config)
            &&& counts_in(end.stripes, config, later) == hist_of(
                config.layout,
                visible(steps, later, config.window),
            )
            &&& sum(counts_in(end.stripes, config, later)) == visible(
                steps,
                later,
                config.window,
            ).len()
        }),
{
    let n = start.threads.len();
    let all = steps + flush_each(n, latest);
    lemma_flush_each(start, config, steps, n, latest);
    let end = start.run(config, all);
    assert forall|k: int| 0 <= k < end.threads.len() implies (#[trigger] end.threads[k]).wf(config)
        && end.threads[k].count == 0 by {}
    law_window_shows_its_recordings(start, config, all, latest, later);
    crate::window_laws::law_histogram_counts_every_latency(
        config.layout,
        visible(steps, later, config.window),
    );
    assert(visible(all, later, config.window) == visible(steps, later, config.window));
}

/// What is recorded is what is read back: once every thread has flushed, a
/// percentile is what the histogram shows of the latency at the percentile's rank
/// among the latencies that were recorded in the seconds of the window. For P50,
/// P90, P95 and P99 that is the latency with exactly that share of the others before
/// it, for every number of latencies below `2^53` that the arithmetic ranks exactly.
pub proof fn law_recorded_window_is_read_back(
    start: Shared,
    config: Config,
    steps: Seq<Step>,
    latest: u64,
    later: u64,
    sorted: Seq<nat>,
    p: nat,
)
    requires
        config.wf(),
        start.is_new(config),
        within(steps, start.threads.len(), latest),
        latest <= later,
        latest <= usize::MAX,
        recordings(steps) <= u64::MAX,
        ascending(sorted),
        sorted.to_multiset() == visible(steps, later, config.window).to_multiset(),
        p <= 99,
    ensures
        ({
            let end = start.run(config, steps + flush_each(start.threads.len(), latest));
            let read = percentile(config.layout, counts_in(end.stripes, config, later), p);
            let shows = |i: int| config.layout.latency_of(config.layout.bin_of(sorted[i]));
            &&& sorted.len() == 0 ==> read == 0
            &&& sorted.len() > 0 ==> read == shows(percentile_rank(sorted.len(), p) - 1)
            &&& sorted.len() > 0 && ranks_exactly(sorted.len(), p) ==> read == shows(
                (sorted.len() * p / 100) as int,
            )
        }),
{
    let seen = visible(steps, later, config.window);
    law_flushed_window_shows_its_recordings(start, config, steps, latest, later);
    crate::window_laws::law_histogram_ignores_order(config.layout, sorted, seen);
    crate::window_laws::law_histogram_counts_every_latency(config.layout, sorted);
    if sorted.len() > 0 {
        crate::window_laws::law_percentile_is_ranked_latency(config.layout, sorted, p);
        if ranks_exactly(sorted.len(), p) {
            crate::window_laws::law_common_percentile_is_exact(config.layout, sorted, p);
        }
    }
}

} // verus!
