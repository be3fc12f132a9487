//! What one thread holds back: the observations of the current second that are
//! not yet flushed into the shared buckets.

use vstd::prelude::*;

use crate::bins::latency_to_bin;
use crate::config::Config;
use crate::hist::{counts, new_hist, sum, zeros};

verus! {

/// The counts to write into one bucket.
pub struct Flush {
    pub stripe: usize,
    pub bucket: usize,
    pub epoch: u64,
    pub hist: Vec<u64>,
}

/// What a flush writes, and where.
#[verifier::ext_equal]
pub struct FlushView {
    pub stripe: usize,
    pub bucket: usize,
    pub epoch: u64,
    pub hist: Seq<u64>,
}

impl View for Flush {
    type V = FlushView;

    open spec fn view(&self) -> FlushView {
        FlushView {
            stripe: self.stripe,
            bucket: self.bucket,
            epoch: self.epoch,
            hist: self.hist@,
        }
    }
}

impl FlushView {
    /// The flush fits a tracker of this configuration.
    pub open spec fn wf(self, config: Config) -> bool {
        &&& self.stripe < config.stripes
        &&& self.bucket < config.spec_buckets()
        &&& self.hist.len() == config.layout.spec_bins()
    }
}

/// What the flushes of a list write, in order.
pub open spec fn flush_views(flushes: Seq<Flush>) -> Seq<FlushView> {
    flushes.map_values(|f: Flush| f@)
}

impl Config {
    /// The bucket of a second within its stripe.
    pub open spec fn bucket_of(self, sec: u64) -> usize {
        (sec as usize as int % self.spec_buckets() as int) as usize
    }

    pub fn bucket_index(&self, sec: u64) -> (b: usize)
        requires
            self.wf(),
        ensures
            b == self.bucket_of(sec),
            b < self.spec_buckets(),
    {
        sec as usize % self.buckets()
    }
}

/// The observations that a thread holds back.
pub struct ThreadBatch {
    /// The stripe that the thread flushes into.
    pub stripe: usize,
    /// Counts held back.
    pub hist: Vec<u64>,
    /// Number of observations held back.
    pub count: u32,
    /// The second in which the observations were made.
    pub start_sec: u64,
}

/// What a thread holds back.
#[verifier::ext_equal]
pub struct BatchView {
    pub stripe: usize,
    pub hist: Seq<u64>,
    pub count: u32,
    pub start_sec: u64,
}

impl View for ThreadBatch {
    type V = BatchView;

    open spec fn view(&self) -> BatchView {
        BatchView {
            stripe: self.stripe,
            hist: self.hist@,
            count: self.count,
            start_sec: self.start_sec,
        }
    }
}

impl BatchView {
    /// The batch belongs to a tracker of this configuration: it counts what it
    /// holds, and holds less than a full batch.
    pub open spec fn wf(self, config: Config) -> bool {
        &&& self.stripe < config.stripes
        &&& self.hist.len() == config.layout.spec_bins()
        &&& self.count < config.flush_every
        &&& sum(counts(self.hist)) == self.count
    }

    /// The batch after its observations were handed over, now for `sec`.
    pub open spec fn emptied(self, config: Config, sec: u64) -> BatchView {
        BatchView {
            stripe: self.stripe,
            hist: zeros(config.layout.spec_bins()),
            count: 0,
            start_sec: sec,
        }
    }

    /// The flush of everything held back, into the bucket of its own second.
    pub open spec fn flush_all(self, config: Config) -> FlushView {
        FlushView {
            stripe: self.stripe,
            bucket: config.bucket_of(self.start_sec),
            epoch: self.start_sec,
            hist: self.hist,
        }
    }

    /// The second of the batch is not `now`.
    pub open spec fn is_over(self, now: u64) -> bool {
        self.start_sec != now
    }

    /// The batch made ready for observations of the second `now`.
    pub open spec fn turned(self, config: Config, now: u64) -> BatchView {
        if self.is_over(now) {
            self.emptied(config, now)
        } else {
            self
        }
    }

    /// The batch with one more observation in `bin`.
    pub open spec fn counted(self, bin: nat) -> BatchView {
        BatchView {
            hist: self.hist.update(bin as int, (self.hist[bin as int] + 1) as u64),
            count: (self.count + 1) as u32,
            ..self
        }
    }

    /// The batch after an observation at the second `now`.
    pub open spec fn observed(self, config: Config, now: u64, lat: nat) -> BatchView {
        let next = self.turned(config, now).counted(config.layout.bin_of(lat));
        if next.count >= config.flush_every {
            next.emptied(config, now)
        } else {
            next
        }
    }

    /// What an observation at the second `now` flushes: what is left of an earlier
    /// second, then the batch that the observation fills. Each goes to the bucket of
    /// its own second.
    pub open spec fn flushes_of(self, config: Config, now: u64, lat: nat) -> Seq<FlushView> {
        let next = self.turned(config, now).counted(config.layout.bin_of(lat));
        let rest = if self.is_over(now) && self.count > 0 {
            seq![self.flush_all(config)]
        } else {
            seq![]
        };
        if next.count >= config.flush_every {
            rest.push(next.flush_all(config))
        } else {
            rest
        }
    }

    /// The batch after everything held back was handed over on demand.
    pub open spec fn drained(self, config: Config) -> BatchView {
        if self.count > 0 {
            self.emptied(config, 0)
        } else {
            self
        }
    }
}

/// Every second has a bucket.
pub proof fn lemma_bucket_in_range(config: Config, sec: u64)
    requires
        config.wf(),
    ensures
        config.bucket_of(sec) < config.spec_buckets(),
{
    vstd::arithmetic::div_mod::lemma_mod_bound(
        (sec as usize) as int,
        config.spec_buckets() as int,
    );
}

/// Counting an observation adds one.
pub proof fn lemma_counted(config: Config, t: BatchView, bin: nat)
    requires
        t.wf(config),
        bin < config.layout.spec_bins(),
    ensures
        t.hist[bin as int] < u64::MAX,
        sum(counts(t.counted(bin).hist)) == t.count + 1,
        t.counted(bin).count == t.count + 1,
{
    let i = bin as int;
    crate::hist::lemma_bin_le_sum(counts(t.hist), i);
    crate::hist::lemma_sum_update(counts(t.hist), i, (t.hist[i] + 1) as nat);
    assert(counts(t.counted(bin).hist) =~= counts(t.hist).update(i, (t.hist[i] + 1) as nat));
}

/// An emptied batch is well formed.
pub proof fn lemma_emptied(config: Config, t: BatchView, sec: u64)
    requires
        config.wf(),
        t.stripe < config.stripes,
    ensures
        t.emptied(config, sec).wf(config),
{
    crate::hist::lemma_sum_no_counts(config.layout.spec_bins());
}

/// A batch that holds nothing has an empty histogram.
pub proof fn lemma_nothing_held(config: Config, t: BatchView)
    requires
        t.wf(config),
        t.count == 0,
    ensures
        t.hist == zeros(config.layout.spec_bins()),
{
    crate::hist::lemma_sum_zero(counts(t.hist));
    assert forall|i: int| 0 <= i < t.hist.len() implies t.hist[i] == 0 by {
        assert(counts(t.hist)[i] == 0);
    }
    assert(t.hist =~= zeros(config.layout.spec_bins()));
}

impl ThreadBatch {
    /// The empty batch of the thread whose identity hashes to `hash`.
    pub fn new(config: &Config, hash: u64) -> (t: ThreadBatch)
        requires
            config.wf(),
        ensures
            t@ == (BatchView {
                stripe: config.spec_stripe_of_hash(hash) as usize,
                hist: zeros(config.layout.spec_bins()),
                count: 0,
                start_sec: 0,
            }),
            t@.wf(*config),
    {
        let t = ThreadBatch {
            stripe: config.stripe_of_hash(hash),
            hist: new_hist(config.layout.bins()),
            count: 0,
            start_sec: 0,
        };
        proof {
            lemma_emptied(*config, t@, 0);
        }
        t
    }

    /// Empties the batch into a flush for the bucket of its second.
    fn hand_over(&mut self, config: &Config) -> (f: Flush)
        requires
            config.wf(),
        ensures
            f@ == old(self)@.flush_all(*config),
            final(self)@ == old(self)@.emptied(*config, old(self).start_sec),
    {
        let mut hist = new_hist(config.layout.bins());
        std::mem::swap(&mut self.hist, &mut hist);
        self.count = 0;
        Flush {
            stripe: self.stripe,
            bucket: config.bucket_index(self.start_sec),
            epoch: self.start_sec,
            hist,
        }
    }

    /// Counts an observation of `lat_ms` milliseconds made in the second `now`,
    /// and returns what there is to flush.
    pub fn observe(&mut self, config: &Config, now: u64, lat_ms: u64) -> (flushes: Vec<Flush>)
        requires
            config.wf(),
            old(self)@.wf(*config),
        ensures
            final(self)@ == old(self)@.observed(*config, now, lat_ms as nat),
            final(self)@.wf(*config),
            flush_views(flushes@) == old(self)@.flushes_of(*config, now, lat_ms as nat),
            flushes@.len() <= 1,
            forall|i: int| 0 <= i < flushes@.len() ==> (#[trigger] flushes@[i])@.wf(*config),
    {
        let bin = latency_to_bin(&config.layout, lat_ms);
        let mut flushes: Vec<Flush> = Vec::new();
        if self.start_sec != now {
            if self.count > 0 {
                flushes.push(self.hand_over(config));
            } else {
                proof {
                    lemma_nothing_held(*config, self@);
                }
            }
            self.start_sec = now;
        }
        proof {
            lemma_emptied(*config, old(self)@, now);
            assert(self@ =~= old(self)@.turned(*config, now));
            lemma_counted(*config, self@, bin as nat);
        }
        let ghost turned = self@;
        self.hist[bin] = self.hist[bin] + 1;
        self.count = self.count + 1;
        assert(self@ =~= turned.counted(bin as nat));
        if self.count >= config.flush_every {
            flushes.push(self.hand_over(config));
            proof {
                lemma_emptied(*config, turned, now);
            }
        }
        assert(flush_views(flushes@) =~= old(self)@.flushes_of(*config, now, lat_ms as nat));
        flushes
    }

    /// Hands over everything held back, for the bucket of its own second.
    pub fn drain(&mut self, config: &Config) -> (flush: Option<Flush>)
        requires
            config.wf(),
            old(self)@.wf(*config),
        ensures
            final(self)@ == old(self)@.drained(*config),
            final(self)@.wf(*config),
            match flush {
                Some(f) => old(self).count > 0 && f@.wf(*config) && f@ == old(self)@.flush_all(
                    *config,
                ),
                None => old(self).count == 0,
            },
    {
        if self.count > 0 {
            let f = self.hand_over(config);
            self.start_sec = 0;
            proof {
                lemma_emptied(*config, old(self)@, 0);
            }
            Some(f)
        } else {
            None
        }
    }
}

} // verus!
