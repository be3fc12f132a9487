//! Ranks, bins and windows on exact values.

use latency_tracker::batch::ThreadBatch;
use latency_tracker::bins::{bin_to_latency_ms, latency_to_bin};
use latency_tracker::config::{Config, Layout};
use latency_tracker::log_scale::{count_log_steps, LOG_STARTS};
use latency_tracker::rank::rank_of_percentile;
use latency_tracker::tracker::{flush_thread_local, latency_ms, record_latency, LatencyTracker};
use latency_tracker::window::{latency_at_rank, percentile_of};

/// The rank in double-precision arithmetic.
fn float_rank(total: u64, p: u8) -> u64 {
    ((total as f64) * (p as f64 / 100.0)) as u64 + 1
}

/// The bin of the compact layout in double-precision arithmetic.
fn float_bin(lat_ms: u64) -> usize {
    if lat_ms <= 1000 {
        (lat_ms / 10) as usize
    } else if lat_ms >= 5000 {
        151
    } else {
        let log_val = ((lat_ms as f64).log2() - 10.0).max(0.0);
        let scale = (log_val * 51.0 / 3.0) as usize;
        100 + scale.min(51)
    }
}

/// The latency of a bin of the compact layout in double-precision arithmetic.
fn float_latency(bin: usize) -> u64 {
    if bin < 100 {
        bin as u64 * 10
    } else if bin == 151 {
        5000
    } else {
        let exp = 10.0 + ((bin - 100) as f64) * 3.0 / 51.0;
        2u64.pow(exp as u32).min(5000)
    }
}

#[test]
fn rank_matches_double_precision() {
    for p in 0..=99 {
        for total in 0..2_000 {
            assert_eq!(rank_of_percentile(total, p), float_rank(total, p), "total={total} p={p}");
        }
        for shift in 0..64 {
            for offset in [0, 1, 2, 3, 5, 511, 1023, 1025, 77_777] {
                let total = (1u64 << shift).wrapping_add(offset);
                assert_eq!(rank_of_percentile(total, p), float_rank(total, p), "total={total} p={p}");
                let total = (1u64 << shift).wrapping_sub(offset);
                assert_eq!(rank_of_percentile(total, p), float_rank(total, p), "total={total} p={p}");
            }
        }
        assert_eq!(rank_of_percentile(u64::MAX, p), float_rank(u64::MAX, p));
    }
}

#[test]
fn rank_on_exact_values() {
    assert_eq!(rank_of_percentile(0, 50), 1);
    assert_eq!(rank_of_percentile(1, 99), 1);
    assert_eq!(rank_of_percentile(100, 0), 1);
    assert_eq!(rank_of_percentile(100, 50), 51);
    assert_eq!(rank_of_percentile(100, 99), 100);
    // The quotient 0.29 is rounded down, and so is the product.
    assert_eq!(rank_of_percentile(100, 29), 29);
    assert_eq!(rank_of_percentile(100_000, 99), 99_001);
}

#[test]
fn rank_is_monotone_and_in_range() {
    for total in [1, 2, 3, 99, 100, 101, 12_345, 1 << 53, (1 << 60) + 1, u64::MAX] {
        let mut prev = 0;
        for p in 0..=99 {
            let rank = rank_of_percentile(total, p);
            assert!(prev <= rank && 1 <= rank && rank <= total);
            prev = rank;
        }
    }
}

#[test]
fn rank_is_near_the_exact_rank() {
    for total in [1u64, 50, 100, 180, 1_000_003, 1 << 52] {
        for p in 0..=99u8 {
            let exact = (total as u128 * p as u128 / 100) as u64;
            let rank = rank_of_percentile(total, p);
            assert!(exact <= rank && rank <= exact + 2);
        }
    }
}

#[test]
fn common_percentiles_have_exact_ranks() {
    for (p, bits) in [(50, 53), (90, 50), (95, 50), (99, 47)] {
        let limit = 1u64 << bits;
        for total in (0..100_000).chain(limit - 100_000..limit) {
            let exact = (total as u128 * p as u128 / 100) as u64;
            assert_eq!(rank_of_percentile(total, p), exact + 1, "total={total} p={p}");
        }
    }
}

#[test]
fn huge_totals_may_rank_one_too_high() {
    // The first indices that need one more bit, and a total just above them.
    for (p, bits) in [(90u8, 50), (95, 50), (99, 47)] {
        let first = (100u64 << bits) / p as u64 + 1;
        let total = first + 201 - first % 100;
        let exact = (total as u128 * p as u128 / 100) as u64;
        assert_eq!(rank_of_percentile(total, p), exact + 2, "p={p}");
        assert_eq!(rank_of_percentile(total - 1, p), exact + 1, "p={p}");
        assert_eq!(rank_of_percentile(total, p), float_rank(total, p));
    }
}

#[test]
fn common_percentiles_are_read_within_ten_ms() {
    for config in [Config::default(), Config::compact()] {
        for n in [1u64, 2, 19, 20, 99, 100, 101, 777] {
            let mut tracker = LatencyTracker::new(config);
            let mut thread = ThreadBatch::new(&config, 3);
            let mut lats: Vec<u64> = (0..n).map(|i| (i * i * 13 + 7) % 1000).collect();
            for &lat_ms in &lats {
                record_latency(&mut tracker, &mut thread, 3, lat_ms);
            }
            flush_thread_local(&mut tracker, &mut thread);
            lats.sort();
            for p in [50u8, 90, 95, 99] {
                let exact = lats[lats.len() * p as usize / 100];
                let read = latency_ms(&tracker, 3, p);
                assert!(read <= exact && exact < read + 10, "n={n} p={p}");
            }
        }
    }
}

#[test]
fn compact_bins_match_double_precision() {
    for lat_ms in 0..12_000 {
        assert_eq!(latency_to_bin(&Layout::LinearLog, lat_ms), float_bin(lat_ms), "lat_ms={lat_ms}");
    }
    assert_eq!(latency_to_bin(&Layout::LinearLog, u64::MAX), 151);
    for bin in 0..152 {
        assert_eq!(bin_to_latency_ms(&Layout::LinearLog, bin), float_latency(bin), "bin={bin}");
    }
}

#[test]
fn compact_bins_on_exact_values() {
    let layout = Layout::LinearLog;
    assert_eq!(layout.bins(), 152);
    assert_eq!(layout.max_latency_ms(), 5000);
    assert_eq!(latency_to_bin(&layout, 999), 99);
    assert_eq!(latency_to_bin(&layout, 1001), 100);
    assert_eq!(latency_to_bin(&layout, 1066), 100);
    assert_eq!(latency_to_bin(&layout, 1067), 101);
    assert_eq!(latency_to_bin(&layout, 2047), 116);
    assert_eq!(latency_to_bin(&layout, 2048), 117);
    assert_eq!(latency_to_bin(&layout, 4999), 138);
    assert_eq!(latency_to_bin(&layout, 5000), 151);
    assert_eq!(bin_to_latency_ms(&layout, 99), 990);
    assert_eq!(bin_to_latency_ms(&layout, 100), 1024);
    assert_eq!(bin_to_latency_ms(&layout, 117), 2048);
    assert_eq!(bin_to_latency_ms(&layout, 150), 4096);
    assert_eq!(bin_to_latency_ms(&layout, 151), 5000);
}

#[test]
fn log_steps_follow_the_table() {
    assert_eq!(count_log_steps(0), 0);
    for k in 0..39 {
        assert_eq!(count_log_steps(LOG_STARTS[k]), k);
        assert_eq!(count_log_steps(LOG_STARTS[k + 1] - 1), k);
    }
}

#[test]
fn linear_bins_on_exact_values() {
    let layout = Config::default().layout;
    assert_eq!(layout.bins(), 501);
    assert_eq!(layout.max_latency_ms(), 5000);
    assert_eq!(latency_to_bin(&layout, 9), 0);
    assert_eq!(latency_to_bin(&layout, 1234), 123);
    assert_eq!(latency_to_bin(&layout, 4999), 499);
    assert_eq!(latency_to_bin(&layout, 5000), 500);
    assert_eq!(latency_to_bin(&layout, u64::MAX), 500);
    assert_eq!(bin_to_latency_ms(&layout, 123), 1230);
    assert_eq!(bin_to_latency_ms(&layout, 500), 5000);
}

#[test]
fn only_the_maximum_and_above_fall_into_the_last_bin() {
    for layout in [Config::default().layout, Layout::LinearLog] {
        for lat_ms in 0..6_000 {
            let last = latency_to_bin(&layout, lat_ms) == layout.bins() - 1;
            assert_eq!(last, lat_ms >= layout.max_latency_ms());
        }
    }
}

#[test]
fn reading_back_loses_less_than_a_step() {
    for (layout, end) in [(Config::default().layout, 5000), (Layout::LinearLog, 1000)] {
        for lat_ms in 0..end {
            let read = bin_to_latency_ms(&layout, latency_to_bin(&layout, lat_ms));
            assert!(read <= lat_ms && lat_ms < read + 10);
        }
    }
    for lat_ms in 1024..5000 {
        let read = bin_to_latency_ms(&Layout::LinearLog, latency_to_bin(&Layout::LinearLog, lat_ms));
        assert!(read <= lat_ms && lat_ms < 2 * read);
    }
}

#[test]
fn latency_at_rank_counts_from_the_first_bin() {
    let layout = Layout::Linear { max_ms: 40, step: 10 };
    let hist = vec![2, 0, 3, 0, 1];
    assert_eq!(latency_at_rank(&layout, &hist, 1), 0);
    assert_eq!(latency_at_rank(&layout, &hist, 2), 0);
    assert_eq!(latency_at_rank(&layout, &hist, 3), 20);
    assert_eq!(latency_at_rank(&layout, &hist, 5), 20);
    assert_eq!(latency_at_rank(&layout, &hist, 6), 40);
    // Beyond the last observation.
    assert_eq!(latency_at_rank(&layout, &vec![1, 0, 0, 0, 0], 2), 40);
}

#[test]
fn percentile_of_a_histogram() {
    let layout = Layout::Linear { max_ms: 40, step: 10 };
    let hist = vec![2, 0, 3, 0, 1];
    assert_eq!(percentile_of(&layout, &hist, 6, 0), 0);
    assert_eq!(percentile_of(&layout, &hist, 6, 50), 20);
    assert_eq!(percentile_of(&layout, &hist, 6, 99), 40);
    assert_eq!(percentile_of(&layout, &hist, 6, 100), 0);
    assert_eq!(percentile_of(&layout, &vec![0; 5], 0, 50), 0);
    // All observations in one bin.
    for p in 0..=99 {
        assert_eq!(percentile_of(&layout, &vec![0, 0, 0, 9, 0], 9, p), 30);
    }
}

#[test]
fn percentile_is_the_ranked_latency() {
    let config = Config::default();
    let mut tracker = LatencyTracker::new(config);
    let mut threads = vec![ThreadBatch::new(&config, 1), ThreadBatch::new(&config, 2)];
    let mut lats: Vec<u64> = (0..777).map(|i| (i * 7919) % 4800).collect();
    for (i, &lat_ms) in lats.iter().enumerate() {
        record_latency(&mut tracker, &mut threads[i % 2], 3, lat_ms);
    }
    for thread in &mut threads {
        flush_thread_local(&mut tracker, thread);
    }
    lats.sort();
    for p in 0..=99 {
        let exact = lats[rank_of_percentile(777, p) as usize - 1];
        assert_eq!(latency_ms(&tracker, 3, p), exact / 10 * 10);
    }
}

#[test]
fn window_ends_after_its_length() {
    for config in [Config::default(), Config::compact()] {
        let mut tracker = LatencyTracker::new(config);
        let mut thread = ThreadBatch::new(&config, 9);
        record_latency(&mut tracker, &mut thread, 100, 250);
        assert_eq!(latency_ms(&tracker, 100, 50), 0);
        flush_thread_local(&mut tracker, &mut thread);
        for now in [100, 105, 110] {
            assert_eq!(latency_ms(&tracker, now, 50), 250);
            assert_eq!(tracker.window_total(now), Some(1));
        }
        assert_eq!(latency_ms(&tracker, 111, 50), 0);
        assert_eq!(tracker.window_total(111), Some(0));
        // A reader whose clock is behind still sees it.
        assert_eq!(latency_ms(&tracker, 42, 50), 250);
    }
}

#[test]
fn a_window_beyond_the_counter_is_noticed() {
    let config = Config::compact();
    let mut tracker = LatencyTracker::new(config);
    tracker.stripes[0][0].hist[3] = u64::MAX;
    assert_eq!(tracker.window_total(0), Some(u64::MAX));
    tracker.stripes[1][4].hist[2] = 1;
    assert_eq!(tracker.window_total(0), None);
    tracker.stripes[1][4].epoch = 30;
    tracker.stripes[0][0].epoch = 19;
    assert_eq!(tracker.window_total(30), Some(1));
}
