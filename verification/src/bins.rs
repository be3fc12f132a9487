//! Histogram bins: which bin a latency falls into, and which latency a bin
//! stands for.

use vstd::prelude::*;

use vstd::arithmetic::power::pow;
use vstd::arithmetic::power2::pow2;

use crate::config::Layout;
use crate::log_scale::{count_log_steps, log_steps};

verus! {

/// Number of bins of the compact layout.
pub const COMPACT_BINS: usize = 152;

/// End of the linear part of the compact layout.
pub const COMPACT_LINEAR_MAX_MS: u64 = 1000;

/// Width of the linear bins of the compact layout.
pub const COMPACT_LINEAR_STEP: u64 = 10;

/// Number of linear bins of the compact layout.
pub const COMPACT_LINEAR_BINS: usize = 100;

/// The latency from which the compact layout uses its last bin.
pub const COMPACT_MAX_LATENCY_MS: u64 = 5000;

impl Layout {
    /// Number of bins.
    pub open spec fn spec_bins(self) -> nat {
        match self {
            Layout::Linear { max_ms, step } => (max_ms / step + 1) as nat,
            Layout::LinearLog => COMPACT_BINS as nat,
        }
    }

    /// The latency from which on everything falls into the last bin.
    pub open spec fn spec_max_latency_ms(self) -> nat {
        match self {
            Layout::Linear { max_ms, .. } => max_ms as nat,
            Layout::LinearLog => COMPACT_MAX_LATENCY_MS as nat,
        }
    }

    /// End of the range in which bins are evenly wide.
    pub open spec fn linear_end_ms(self) -> nat {
        match self {
            Layout::Linear { max_ms, .. } => max_ms as nat,
            Layout::LinearLog => COMPACT_LINEAR_MAX_MS as nat,
        }
    }

    /// Width of the bins in that range.
    pub open spec fn linear_width_ms(self) -> nat {
        match self {
            Layout::Linear { step, .. } => step as nat,
            Layout::LinearLog => COMPACT_LINEAR_STEP as nat,
        }
    }

    /// The bin of a latency.
    pub open spec fn bin_of(self, lat: nat) -> nat {
        match self {
            Layout::Linear { max_ms, step } => if lat >= max_ms {
                (max_ms / step) as nat
            } else {
                lat / step as nat
            },
            Layout::LinearLog => if lat <= COMPACT_LINEAR_MAX_MS {
                lat / COMPACT_LINEAR_STEP as nat
            } else if lat >= COMPACT_MAX_LATENCY_MS {
                (COMPACT_BINS - 1) as nat
            } else if lat < 1024 {
                COMPACT_LINEAR_BINS as nat
            } else {
                (COMPACT_LINEAR_BINS + log_steps(lat as int)) as nat
            },
        }
    }

    /// The latency that a bin stands for.
    pub open spec fn latency_of(self, bin: nat) -> nat {
        match self {
            Layout::Linear { step, .. } => bin * step as nat,
            Layout::LinearLog => if bin < COMPACT_LINEAR_BINS {
                bin * COMPACT_LINEAR_STEP as nat
            } else if bin == COMPACT_BINS - 1 {
                COMPACT_MAX_LATENCY_MS as nat
            } else {
                pow2(10 + (bin - COMPACT_LINEAR_BINS) as nat / 17)
            },
        }
    }

    pub fn bins(&self) -> (n: usize)
        requires
            self.wf(),
        ensures
            n == self.spec_bins(),
    {
        match self {
            Layout::Linear { max_ms, step } => (*max_ms / *step) as usize + 1,
            Layout::LinearLog => COMPACT_BINS,
        }
    }

    pub fn max_latency_ms(&self) -> (ms: u64)
        ensures
            ms == self.spec_max_latency_ms(),
    {
        match self {
            Layout::Linear { max_ms, .. } => *max_ms,
            Layout::LinearLog => COMPACT_MAX_LATENCY_MS,
        }
    }
}

/// The bin of a latency in milliseconds.
pub fn latency_to_bin(layout: &Layout, lat_ms: u64) -> (bin: usize)
    requires
        layout.wf(),
    ensures
        bin == layout.bin_of(lat_ms as nat),
        bin < layout.spec_bins(),
{
    match layout {
        Layout::Linear { max_ms, step } => if lat_ms >= *max_ms {
            (*max_ms / *step) as usize
        } else {
            proof {
                vstd::arithmetic::div_mod::lemma_div_is_ordered(
                    lat_ms as int,
                    *max_ms as int,
                    *step as int,
                );
            }
            (lat_ms / *step) as usize
        },
        Layout::LinearLog => if lat_ms <= COMPACT_LINEAR_MAX_MS {
            (lat_ms / COMPACT_LINEAR_STEP) as usize
        } else if lat_ms >= COMPACT_MAX_LATENCY_MS {
            COMPACT_BINS - 1
        } else {
            COMPACT_LINEAR_BINS + count_log_steps(lat_ms)
        },
    }
}

/// The latency in milliseconds that a bin stands for.
pub fn bin_to_latency_ms(layout: &Layout, bin: usize) -> (ms: u64)
    requires
        layout.wf(),
        bin < layout.spec_bins(),
    ensures
        ms == layout.latency_of(bin as nat),
        ms <= layout.spec_max_latency_ms(),
{
    match layout {
        Layout::Linear { max_ms, step } => {
            proof {
                lemma_linear_latency(*max_ms as nat, *step as nat, bin as nat);
            }
            bin as u64 * *step
        },
        Layout::LinearLog => if bin < COMPACT_LINEAR_BINS {
            bin as u64 * COMPACT_LINEAR_STEP
        } else if bin == COMPACT_BINS - 1 {
            COMPACT_MAX_LATENCY_MS
        } else {
            proof {
                vstd::arithmetic::power2::lemma2_to64();
            }
            let octave: usize = (bin - COMPACT_LINEAR_BINS) / 17;
            if octave == 0 {
                1024
            } else if octave == 1 {
                2048
            } else {
                4096
            }
        },
    }
}

proof fn lemma_linear_latency(max_ms: nat, step: nat, bin: nat)
    requires
        step > 0,
        max_ms % step == 0,
        bin <= max_ms / step,
    ensures
        bin * step <= max_ms,
        bin == max_ms / step ==> bin * step == max_ms,
{
    vstd::arithmetic::div_mod::lemma_fundamental_div_mod(max_ms as int, step as int);
    assert(bin * step <= step * (max_ms / step)) by (nonlinear_arith)
        requires
            bin <= max_ms / step,
    ;
    assert(bin * step == step * bin) by (nonlinear_arith);
}

/// A longer latency never falls into an earlier bin.
pub proof fn law_bin_monotone(layout: Layout, a: nat, b: nat)
    requires
        layout.wf(),
        a <= b,
    ensures
        layout.bin_of(a) <= layout.bin_of(b) < layout.spec_bins(),
{
    match layout {
        Layout::Linear { max_ms, step } => {
            vstd::arithmetic::div_mod::lemma_div_is_ordered(a as int, b as int, step as int);
            if a < max_ms {
                vstd::arithmetic::div_mod::lemma_div_is_ordered(a as int, max_ms as int, step as int);
            }
            if b < max_ms {
                vstd::arithmetic::div_mod::lemma_div_is_ordered(b as int, max_ms as int, step as int);
            }
        },
        Layout::LinearLog => {
            crate::log_scale::lemma_log_steps_ends();
            if 1024 <= a < 5000 {
                crate::log_scale::lemma_log_steps_monotone(1024, a as int);
                crate::log_scale::lemma_log_steps_monotone(a as int, 4999);
            }
            if 1024 <= b < 5000 {
                crate::log_scale::lemma_log_steps_monotone(1024, b as int);
                crate::log_scale::lemma_log_steps_monotone(b as int, 4999);
                if 1024 <= a {
                    crate::log_scale::lemma_log_steps_monotone(a as int, b as int);
                }
            }
        },
    }
}

/// Every latency from the maximum on falls into the last bin, and no shorter
/// one does.
pub proof fn law_last_bin_holds_the_rest(layout: Layout, lat: nat)
    requires
        layout.wf(),
    ensures
        layout.bin_of(lat) == layout.spec_bins() - 1 <==> lat >= layout.spec_max_latency_ms(),
{
    match layout {
        Layout::Linear { max_ms, step } => {
            if lat < max_ms {
                lemma_linear_latency(max_ms as nat, step as nat, (max_ms / step) as nat);
                vstd::arithmetic::div_mod::lemma_fundamental_div_mod(lat as int, step as int);
                let q = (lat / step as nat) as int;
                assert(q < max_ms / step) by (nonlinear_arith)
                    requires
                        step * q <= lat < max_ms,
                        (max_ms / step) * step == max_ms,
                        step > 0,
                ;
            }
        },
        Layout::LinearLog => {
            crate::log_scale::lemma_log_steps_ends();
            if 1024 <= lat < 5000 {
                crate::log_scale::lemma_log_steps_monotone(1024, lat as int);
                crate::log_scale::lemma_log_steps_monotone(lat as int, 4999);
            }
        },
    }
}

/// A later bin never stands for a shorter latency.
pub proof fn law_latency_monotone(layout: Layout, i: nat, j: nat)
    requires
        layout.wf(),
        i <= j < layout.spec_bins(),
    ensures
        layout.latency_of(i) <= layout.latency_of(j),
{
    match layout {
        Layout::Linear { step, .. } => {
            vstd::arithmetic::mul::lemma_mul_inequality(i as int, j as int, step as int);
        },
        Layout::LinearLog => {
            vstd::arithmetic::power2::lemma2_to64();
        },
    }
}

/// The last bin stands for the maximum latency.
pub proof fn law_last_bin_is_maximum(layout: Layout)
    requires
        layout.wf(),
    ensures
        layout.latency_of((layout.spec_bins() - 1) as nat) == layout.spec_max_latency_ms(),
{
    if let Layout::Linear { max_ms, step } = layout {
        lemma_linear_latency(max_ms as nat, step as nat, (max_ms / step) as nat);
    }
}

/// Below the end of the linear range, reading a latency back from its bin loses
/// less than one step.
pub proof fn law_linear_resolution(layout: Layout, lat: nat)
    requires
        layout.wf(),
        lat < layout.linear_end_ms(),
    ensures
        ({
            let read = layout.latency_of(layout.bin_of(lat));
            read <= lat < read + layout.linear_width_ms()
        }),
{
    if let Layout::Linear { step, .. } = layout {
        vstd::arithmetic::div_mod::lemma_fundamental_div_mod(lat as int, step as int);
        assert((lat / step as nat) * step as nat == step as nat * (lat / step as nat)) by (nonlinear_arith);
    }
}

/// In the logarithmic range, a latency reads back as the power of two at or
/// below it.
pub proof fn law_log_resolution(lat: nat)
    requires
        1024 <= lat < COMPACT_MAX_LATENCY_MS,
    ensures
        ({
            let read = Layout::LinearLog.latency_of(Layout::LinearLog.bin_of(lat));
            &&& read <= lat < 2 * read
            &&& read == 1024 || read == 2048 || read == 4096
        }),
{
    crate::log_scale::lemma_log_steps_ends();
    vstd::arithmetic::power2::lemma2_to64();
    if lat < 2048 {
        crate::log_scale::lemma_log_steps_monotone(1024, lat as int);
        crate::log_scale::lemma_log_steps_monotone(lat as int, 2047);
    } else if lat < 4096 {
        crate::log_scale::lemma_log_steps_monotone(2048, lat as int);
        crate::log_scale::lemma_log_steps_monotone(lat as int, 4095);
    } else {
        crate::log_scale::lemma_log_steps_monotone(4096, lat as int);
        crate::log_scale::lemma_log_steps_monotone(lat as int, 4999);
    }
}

/// A linear histogram has one bin for each step up to the maximum and one for the rest;
/// the compact one has 152 bins and ends at five seconds.
pub proof fn law_number_of_bins(layout: Layout)
    requires
        layout.wf(),
    ensures
        match layout {
            Layout::Linear { max_ms, step } => {
                &&& (layout.spec_bins() - 1) * step == max_ms
                &&& layout.spec_max_latency_ms() == max_ms
            },
            Layout::LinearLog => {
                &&& layout.spec_bins() == 152
                &&& layout.spec_max_latency_ms() == 5000
            },
        },
{
    if let Layout::Linear { max_ms, step } = layout {
        lemma_linear_latency(max_ms as nat, step as nat, (max_ms / step) as nat);
    }
}

/// The bin of a latency in a linear histogram is the number of whole steps below it, and
/// never beyond the maximum.
pub proof fn law_linear_bins(max_ms: u64, step: u64, lat: nat)
    requires
        (Layout::Linear { max_ms, step }).wf(),
    ensures
        ({
            let bin = (Layout::Linear { max_ms, step }).bin_of(lat);
            &&& lat < max_ms ==> bin * step <= lat < bin * step + step
            &&& lat >= max_ms ==> bin * step == max_ms
        }),
{
    let n = step as nat;
    vstd::arithmetic::div_mod::lemma_fundamental_div_mod(lat as int, step as int);
    assert((lat / n) * n == n * (lat / n)) by (nonlinear_arith);
    lemma_linear_latency(max_ms as nat, n, (max_ms / step) as nat);
}

/// A bin of a linear histogram stands for the shortest latency that falls into it.
pub proof fn law_linear_bin_starts(max_ms: u64, step: u64, bin: nat)
    requires
        (Layout::Linear { max_ms, step }).wf(),
        bin * step <= max_ms,
    ensures
        (Layout::Linear { max_ms, step }).latency_of(bin) == bin * step,
        (Layout::Linear { max_ms, step }).bin_of(bin * step as nat) == bin,
{
    vstd::arithmetic::div_mod::lemma_div_by_multiple(bin as int, step as int);
    if bin * step == max_ms {
        assert(max_ms / step == bin);
    }
}

/// What a linear histogram shows of a latency: the latency cut to a multiple of the step,
/// or the maximum if it is not below that.
pub proof fn law_linear_read_back(max_ms: u64, step: u64, lat: nat)
    requires
        (Layout::Linear { max_ms, step }).wf(),
    ensures
        ({
            let layout = Layout::Linear { max_ms, step };
            layout.latency_of(layout.bin_of(lat)) == if lat >= max_ms {
                max_ms as int
            } else {
                lat - lat % step as nat
            }
        }),
{
    let n = step as nat;
    vstd::arithmetic::div_mod::lemma_fundamental_div_mod(lat as int, step as int);
    assert((lat / n) * n == n * (lat / n)) by (nonlinear_arith);
    lemma_linear_latency(max_ms as nat, n, (max_ms / step) as nat);
}

/// The bin of a latency in the compact histogram: tens of milliseconds up to one second,
/// then seventeenths of an octave from 1024 on, and the last bin from five seconds on.
pub proof fn law_compact_bins(lat: nat)
    ensures
        ({
            let bin = Layout::LinearLog.bin_of(lat);
            &&& lat <= 1000 ==> 10 * bin <= lat < 10 * bin + 10
            &&& 1000 < lat < 1024 ==> bin == 100
            &&& 1024 <= lat < 5000 ==> {
                &&& 100 <= bin < 139
                &&& pow(2, (70 + bin) as nat) <= pow(lat as int, 17) < pow(2, (71 + bin) as nat)
            }
            &&& lat >= 5000 ==> bin == 151
        }),
{
    if 1024 <= lat < 5000 {
        crate::log_scale::lemma_log_steps_ends();
        crate::log_scale::lemma_log_steps_monotone(1024, lat as int);
        crate::log_scale::lemma_log_steps_monotone(lat as int, 4999);
        crate::log_scale::law_steps_are_seventeenths_of_an_octave(
            lat as int,
            log_steps(lat as int),
        );
    }
}

/// What a bin of the compact histogram stands for: tens of milliseconds, then the power
/// of two at the start of its octave, and five seconds for the last one.
pub proof fn law_compact_bin_starts(bin: nat)
    requires
        bin < 152,
    ensures
        Layout::LinearLog.latency_of(bin) == if bin < 100 {
            10 * bin
        } else if bin < 117 {
            1024
        } else if bin < 134 {
            2048
        } else if bin < 151 {
            4096
        } else {
            5000
        },
{
    vstd::arithmetic::power2::lemma2_to64();
}

/// What the compact histogram shows of a latency.
pub open spec fn compact_reading(lat: nat) -> int {
    if lat < 1000 {
        lat - lat % 10
    } else if lat < 2048 {
        1024
    } else if lat < 4096 {
        2048
    } else if lat < 5000 {
        4096
    } else {
        5000
    }
}

/// The compact histogram shows tens of milliseconds below one second, then powers of two,
/// and five seconds at most.
pub proof fn law_compact_read_back(lat: nat)
    ensures
        Layout::LinearLog.latency_of(Layout::LinearLog.bin_of(lat)) == compact_reading(lat),
{
    vstd::arithmetic::power2::lemma2_to64();
    if 1024 <= lat < 5000 {
        law_log_resolution(lat);
    }
}

} // verus!
