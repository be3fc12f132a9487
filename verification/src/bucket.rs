//! One second of one stripe: a histogram stamped with the second it belongs to.

use vstd::prelude::*;

use crate::hist::{new_hist, zeros};

verus! {

/// A histogram and the second, its epoch, whose observations it holds.
pub struct Bucket {
    pub epoch: u64,
    pub hist: Vec<u64>,
}

/// What a bucket holds.
#[verifier::ext_equal]
pub struct BucketView {
    pub epoch: u64,
    pub hist: Seq<u64>,
}

impl View for Bucket {
    type V = BucketView;

    open spec fn view(&self) -> BucketView {
        BucketView { epoch: self.epoch, hist: self.hist@ }
    }
}

/// How a flush writes its counts into a bucket.
#[derive(Debug, Clone, Copy, PartialEq, Eq, Structural)]
pub enum FlushMode {
    /// The bucket was claimed for a new epoch: the counts replace those of
    /// another second in every bin.
    Store,
    /// The bucket already holds counts to keep.
    Add,
}

/// What a flush does next with a bucket.
#[derive(Debug, Clone, Copy, PartialEq, Eq, Structural)]
pub enum FlushStep {
    /// The bucket belongs to a later second: both seconds share it, so the counts
    /// to flush have left the window.
    Drop,
    /// The bucket belongs to an earlier second: raise its epoch, and replace the
    /// counts. If another flush has raised it meanwhile, decide again.
    Claim,
    /// The bucket belongs to the second of the flush: add the counts.
    Add,
}

/// What a flush of `epoch` does with a bucket that it sees at the epoch `seen`.
pub open spec fn step_of_flush(seen: u64, epoch: u64) -> FlushStep {
    if seen > epoch {
        FlushStep::Drop
    } else if seen < epoch {
        FlushStep::Claim
    } else {
        FlushStep::Add
    }
}

/// Decides what a flush of `epoch` does with a bucket that it sees at the epoch
/// `seen`.
pub fn flush_step(seen: u64, epoch: u64) -> (step: FlushStep)
    ensures
        step == step_of_flush(seen, epoch),
{
    if seen > epoch {
        FlushStep::Drop
    } else if seen < epoch {
        FlushStep::Claim
    } else {
        FlushStep::Add
    }
}

/// What a flush adds to a bin, around `u64`, to write `count` into it. A claim
/// replaces the count `stale` that it read before; everything is written by additions,
/// so that flushes which overlap do not undo each other.
pub open spec fn change_of_bin(mode: FlushMode, stale: u64, count: u64) -> u64 {
    match mode {
        FlushMode::Store => count.wrapping_sub(stale),
        FlushMode::Add => count,
    }
}

/// Computes what a flush adds to a bin.
pub fn bin_change(mode: FlushMode, stale: u64, count: u64) -> (change: u64)
    ensures
        change == change_of_bin(mode, stale, count),
        stale.wrapping_add(change) == match mode {
            FlushMode::Store => count,
            FlushMode::Add => stale.wrapping_add(count),
        },
{
    match mode {
        FlushMode::Store => count.wrapping_sub(stale),
        FlushMode::Add => count,
    }
}

impl BucketView {
    /// The bucket after the counts `hist` of `epoch` were flushed into it in a
    /// mode.
    pub open spec fn written(self, mode: FlushMode, hist: Seq<u64>, epoch: u64) -> BucketView {
        match mode {
            FlushMode::Store => BucketView { epoch, hist },
            FlushMode::Add => BucketView {
                epoch: self.epoch,
                hist: Seq::new(
                    self.hist.len(),
                    |i: int| self.hist[i].wrapping_add(hist[i]),
                ),
            },
        }
    }

    /// The bucket after a flush that had seen it at the epoch `prev`, maybe before
    /// other flushes changed it. A flush that tries to claim the bucket learns its
    /// epoch anew.
    pub open spec fn flushed_from(self, prev: u64, hist: Seq<u64>, epoch: u64) -> BucketView {
        let seen = if prev < epoch {
            self.epoch
        } else {
            prev
        };
        match step_of_flush(seen, epoch) {
            FlushStep::Drop => self,
            FlushStep::Claim => self.written(FlushMode::Store, hist, epoch),
            FlushStep::Add => self.written(FlushMode::Add, hist, epoch),
        }
    }

    /// The bucket after an undisturbed flush.
    pub open spec fn flushed(self, hist: Seq<u64>, epoch: u64) -> BucketView {
        self.flushed_from(self.epoch, hist, epoch)
    }
}

impl Bucket {
    /// A bucket without observations.
    pub fn new(bins: usize) -> (b: Bucket)
        ensures
            b@ == (BucketView { epoch: 0, hist: zeros(bins as nat) }),
    {
        Bucket { epoch: 0, hist: new_hist(bins) }
    }

    /// Flushes the counts of `epoch` after the bucket had been seen at the epoch
    /// `prev`.
    pub fn flush_from(&mut self, prev: u64, hist: &Vec<u64>, epoch: u64)
        requires
            hist@.len() == old(self).hist@.len(),
        ensures
            final(self)@ == old(self)@.flushed_from(prev, hist@, epoch),
    {
        let mut step = flush_step(prev, epoch);
        if step == FlushStep::Claim && self.epoch != prev {
            step = flush_step(self.epoch, epoch);
        }
        let mode = match step {
            FlushStep::Drop => return,
            FlushStep::Claim => FlushMode::Store,
            FlushStep::Add => FlushMode::Add,
        };
        if mode == FlushMode::Store {
            self.epoch = epoch;
        }
        let ghost start = old(self).hist@;
        let ghost target = old(self)@.flushed_from(prev, hist@, epoch);
        let mut i: usize = 0;
        while i < hist.len()
            invariant
                i <= hist@.len(),
                hist@.len() == start.len() == self.hist@.len() == target.hist.len(),
                self.epoch == target.epoch,
                start == old(self).hist@,
                target == old(self)@.written(mode, hist@, epoch),
                forall|j: int| 0 <= j < i ==> self.hist@[j] == target.hist[j],
                forall|j: int| i <= j < start.len() ==> self.hist@[j] == start[j],
            decreases hist@.len() - i,
        {
            let stale = self.hist[i];
            self.hist[i] = stale.wrapping_add(bin_change(mode, stale, hist[i]));
            i = i + 1;
        }
        assert(self@ =~= target);
    }

    /// Flushes the counts of `epoch`, undisturbed.
    pub fn flush(&mut self, hist: &Vec<u64>, epoch: u64)
        requires
            hist@.len() == old(self).hist@.len(),
        ensures
            final(self)@ == old(self)@.flushed(hist@, epoch),
    {
        let prev = self.epoch;
        self.flush_from(prev, hist, epoch);
    }
}

} // verus!
