//! Batches and flushes on exact values.

use latency_tracker::batch::{Flush, ThreadBatch};
use latency_tracker::bucket::{bin_change, flush_step, Bucket, FlushMode, FlushStep};
use latency_tracker::config::{Config, Layout};
use latency_tracker::tracker::{flush_thread_local, latency_ms, record_latency, LatencyTracker};

fn bucket(epoch: u64, hist: &[u64]) -> Bucket {
    Bucket { epoch, hist: hist.to_vec() }
}

#[test]
fn flush_step_goes_by_the_order_of_seconds() {
    assert_eq!(flush_step(3, 4), FlushStep::Claim);
    assert_eq!(flush_step(4, 4), FlushStep::Add);
    assert_eq!(flush_step(5, 4), FlushStep::Drop);
}

#[test]
fn bin_change_leads_from_the_stale_count() {
    assert_eq!(bin_change(FlushMode::Add, 7, 0), 0);
    assert_eq!(bin_change(FlushMode::Add, 7, 5), 5);
    assert_eq!(bin_change(FlushMode::Store, 0, 5), 5);
    assert_eq!(bin_change(FlushMode::Store, 7, 7), 0);
    for (stale, count) in [(7, 0), (7, 5), (7, 9), (u64::MAX, 3)] {
        let change = bin_change(FlushMode::Store, stale, count);
        assert_eq!(stale.wrapping_add(change), count);
    }
}

#[test]
fn overlapping_writes_of_a_bin_lose_nothing() {
    // A claim that found 9 and brings 4, while others add 1 and 2.
    let change = bin_change(FlushMode::Store, 9, 4);
    for order in [[change, 1, 2], [1, change, 2], [1, 2, change]] {
        let bin = order.iter().fold(9u64, |bin, &d| bin.wrapping_add(d));
        assert_eq!(bin, 7);
    }
}

#[test]
fn flush_of_the_same_second_adds() {
    let mut b = bucket(8, &[1, 0, 2]);
    b.flush(&vec![4, 5, 0], 8);
    assert_eq!(b.epoch, 8);
    assert_eq!(b.hist, vec![5, 5, 2]);
}

#[test]
fn flush_of_another_second_replaces_every_bin() {
    let mut b = bucket(8, &[1, 7, 2]);
    b.flush(&vec![4, 0, 6], 9);
    assert_eq!(b.epoch, 9);
    assert_eq!(b.hist, vec![4, 0, 6]);
}

#[test]
fn counts_wrap_around() {
    let mut b = bucket(8, &[u64::MAX]);
    b.flush(&vec![2], 8);
    assert_eq!(b.hist, vec![1]);
}

#[test]
fn a_lost_claim_decides_again() {
    // A flush of the same second has claimed the bucket since it was seen.
    let mut b = bucket(9, &[1, 1]);
    b.flush_from(2, &vec![3, 0], 9);
    assert_eq!(b.epoch, 9);
    assert_eq!(b.hist, vec![4, 1]);

    // One of a second in between has.
    let mut b = bucket(5, &[1, 1]);
    b.flush_from(2, &vec![3, 0], 9);
    assert_eq!(b.epoch, 9);
    assert_eq!(b.hist, vec![3, 0]);

    // One of a later second has.
    let mut b = bucket(12, &[1, 1]);
    b.flush_from(2, &vec![3, 0], 9);
    assert_eq!(b.epoch, 12);
    assert_eq!(b.hist, vec![1, 1]);
}

#[test]
fn a_later_second_keeps_its_bucket() {
    let mut b = bucket(9, &[1, 1]);
    b.flush(&vec![3, 0], 8);
    assert_eq!(b.epoch, 9);
    assert_eq!(b.hist, vec![1, 1]);
}

#[test]
fn racing_claims_leave_what_taking_turns_leaves() {
    let (first, second) = (vec![3, 0, 1], vec![2, 2, 0]);
    let mut raced = bucket(1, &[9, 9, 9]);
    raced.flush_from(1, &first, 4);
    raced.flush_from(1, &second, 4);
    let mut turns = bucket(1, &[9, 9, 9]);
    turns.flush(&first, 4);
    turns.flush(&second, 4);
    assert_eq!(raced.epoch, turns.epoch);
    assert_eq!(raced.hist, turns.hist);
    assert_eq!(raced.hist, vec![5, 2, 1]);
}

#[test]
fn flushes_of_a_second_commute() {
    let (first, second) = (vec![3, 0, 1], vec![2, 2, 0]);
    let mut a = bucket(0, &[0, 0, 0]);
    a.flush(&first, 4);
    a.flush(&second, 4);
    let mut b = bucket(0, &[0, 0, 0]);
    b.flush(&second, 4);
    b.flush(&first, 4);
    assert_eq!(a.hist, b.hist);
    assert_eq!(a.hist, vec![5, 2, 1]);
}

#[test]
fn a_full_batch_is_flushed() {
    for (config, full) in [(Config::default(), 512), (Config::compact(), 64)] {
        let mut tracker = LatencyTracker::new(config);
        let mut thread = ThreadBatch::new(&config, 0);
        for i in 1..full {
            record_latency(&mut tracker, &mut thread, 6, 30);
            assert_eq!(thread.count, i);
        }
        assert_eq!(tracker.window_total(6), Some(0));
        record_latency(&mut tracker, &mut thread, 6, 30);
        assert_eq!(thread.count, 0);
        assert_eq!(thread.start_sec, 6);
        assert_eq!(tracker.window_total(6), Some(full as u64));
        assert_eq!(tracker.get_bucket(0, 6).epoch, 6);
        assert_eq!(tracker.get_bucket(0, 6).hist[3], full as u64);
    }
}

#[test]
fn a_new_second_flushes_the_rest_into_its_own_bucket() {
    let config = Config::compact();
    let mut tracker = LatencyTracker::new(config);
    let mut thread = ThreadBatch::new(&config, 0);
    record_latency(&mut tracker, &mut thread, 6, 30);
    record_latency(&mut tracker, &mut thread, 7, 50);
    assert_eq!(thread.count, 1);
    assert_eq!(thread.start_sec, 7);
    assert_eq!(tracker.get_bucket(0, 6).epoch, 6);
    assert_eq!(tracker.get_bucket(0, 6).hist[3], 1);
    assert_eq!(tracker.get_bucket(0, 7).epoch, 0);
    flush_thread_local(&mut tracker, &mut thread);
    assert_eq!(tracker.get_bucket(0, 6).hist[3], 1);
    assert_eq!(tracker.get_bucket(0, 7).epoch, 7);
    assert_eq!(tracker.get_bucket(0, 7).hist[3], 0);
    assert_eq!(tracker.get_bucket(0, 7).hist[5], 1);
}

#[test]
fn observing_returns_what_there_is_to_flush() {
    let config = Config { flush_every: 1, ..Config::compact() };
    let mut thread = ThreadBatch::new(&config, 0);
    let flushes = thread.observe(&config, 2, 70);
    assert_eq!(flushes.len(), 1);
    assert_eq!(flushes[0].epoch, 2);
    assert_eq!(flushes[0].bucket, 2);
    assert_eq!(flushes[0].hist[7], 1);

    let config = Config { flush_every: 2, ..Config::compact() };
    let mut thread = ThreadBatch::new(&config, 0);
    assert!(thread.observe(&config, 2, 70).is_empty());
    let flushes = thread.observe(&config, 14, 80);
    assert_eq!(flushes.len(), 1);
    assert_eq!(flushes[0].epoch, 2);
    assert_eq!(flushes[0].bucket, 2);
    assert_eq!(flushes[0].hist[7], 1);
    assert_eq!(flushes[0].hist[8], 0);
    assert_eq!(thread.count, 1);
}

#[test]
fn the_first_second_is_batched() {
    let config = Config::compact();
    let mut tracker = LatencyTracker::new(config);
    let mut thread = ThreadBatch::new(&config, 0);
    for i in 1..=5 {
        record_latency(&mut tracker, &mut thread, 0, 20);
        assert_eq!(thread.count, i);
    }
    assert_eq!(tracker.window_total(0), Some(0));
    flush_thread_local(&mut tracker, &mut thread);
    assert_eq!(thread.count, 0);
    assert_eq!(tracker.window_total(0), Some(5));
}

#[test]
fn a_reused_bucket_forgets_its_former_second() {
    for config in [Config::default(), Config::compact()] {
        let mut tracker = LatencyTracker::new(config);
        let mut thread = ThreadBatch::new(&config, 0);
        record_latency(&mut tracker, &mut thread, 1, 5000);
        flush_thread_local(&mut tracker, &mut thread);
        assert_eq!(latency_ms(&tracker, 1, 99), 5000);
        // Second 12 shares its bucket with second 1.
        record_latency(&mut tracker, &mut thread, 12, 10);
        flush_thread_local(&mut tracker, &mut thread);
        assert_eq!(tracker.window_total(12), Some(1));
        assert_eq!(latency_ms(&tracker, 12, 99), 10);
    }
}

#[test]
fn observations_carried_over_are_kept() {
    for config in [Config::default(), Config::compact()] {
        let mut tracker = LatencyTracker::new(config);
        let mut thread = ThreadBatch::new(&config, 0);
        for _ in 0..3 {
            record_latency(&mut tracker, &mut thread, 1, 500);
        }
        for lat_ms in [500, 10, 10] {
            record_latency(&mut tracker, &mut thread, 2, lat_ms);
        }
        flush_thread_local(&mut tracker, &mut thread);
        assert_eq!(tracker.window_total(2), Some(6));
        assert_eq!(latency_ms(&tracker, 2, 50), 500);
        // Second 1 leaves the window first.
        assert_eq!(tracker.window_total(12), Some(3));
        assert_eq!(latency_ms(&tracker, 12, 50), 10);
    }
}

#[test]
fn a_batch_that_comes_too_late_is_dropped() {
    let config = Config::default();
    let mut tracker = LatencyTracker::new(config);
    let mut late = ThreadBatch::new(&config, 0);
    let mut thread = ThreadBatch::new(&config, 64);
    assert_eq!(late.stripe, thread.stripe);
    record_latency(&mut tracker, &mut late, 1, 700);
    record_latency(&mut tracker, &mut thread, 12, 20);
    flush_thread_local(&mut tracker, &mut thread);
    flush_thread_local(&mut tracker, &mut late);
    assert_eq!(late.count, 0);
    assert_eq!(tracker.get_bucket(0, 1).epoch, 12);
    assert_eq!(tracker.window_total(12), Some(1));
    assert_eq!(latency_ms(&tracker, 12, 99), 20);
}

#[test]
fn flushing_leaves_later_seconds_alone() {
    let config = Config::default();
    let mut tracker = LatencyTracker::new(config);
    let at = |epoch, count| Flush { stripe: 3, bucket: 2, epoch, hist: vec![count; 501] };
    tracker.flush(&at(13, 4));
    tracker.flush(&at(2, 9));
    assert_eq!(tracker.get_bucket(3, 2).epoch, 13);
    assert_eq!(tracker.get_bucket(3, 2).hist[0], 4);
    tracker.flush(&at(13, 1));
    assert_eq!(tracker.get_bucket(3, 2).hist[0], 5);
    tracker.flush(&at(24, 2));
    assert_eq!(tracker.get_bucket(3, 2).epoch, 24);
    assert_eq!(tracker.get_bucket(3, 2).hist[0], 2);
}

#[test]
fn flushing_twice_changes_nothing() {
    let config = Config::default();
    let mut tracker = LatencyTracker::new(config);
    let mut thread = ThreadBatch::new(&config, 3);
    record_latency(&mut tracker, &mut thread, 4, 90);
    flush_thread_local(&mut tracker, &mut thread);
    assert_eq!(thread.start_sec, 0);
    assert_eq!(tracker.window_total(4), Some(1));
    flush_thread_local(&mut tracker, &mut thread);
    assert_eq!(tracker.window_total(4), Some(1));
    assert_eq!(latency_ms(&tracker, 4, 99), 90);
}

#[test]
fn seconds_of_a_window_have_own_buckets() {
    let config = Config::default();
    assert_eq!(config.buckets(), 11);
    for a in 0..50 {
        for b in a + 1..=a + 10 {
            assert_ne!(config.bucket_index(a), config.bucket_index(b));
        }
        assert_eq!(config.bucket_index(a), config.bucket_index(a + 11));
    }
}

#[test]
fn threads_flush_into_their_stripe() {
    let config = Config::default();
    for hash in [0, 1, 63, 64, 12_345_678_901, u64::MAX] {
        let thread = ThreadBatch::new(&config, hash);
        assert_eq!(thread.stripe as u64, hash % 64);
    }
    let mut tracker = LatencyTracker::new(config);
    let f = Flush { stripe: 5, bucket: 2, epoch: 13, hist: vec![1; 501] };
    tracker.flush(&f);
    for stripe in 0..64 {
        for b in 0..11 {
            let touched = stripe == 5 && b == 2;
            assert_eq!(tracker.get_bucket(stripe, b).epoch, if touched { 13 } else { 0 });
            assert_eq!(tracker.get_bucket(stripe, b).hist[9], if touched { 1 } else { 0 });
        }
    }
}

#[test]
fn trackers_are_isolated() {
    let config = Config::default();
    let mut a = LatencyTracker::new(config);
    let mut b = LatencyTracker::new(config);
    let mut in_a = ThreadBatch::new(&config, 3);
    let mut in_b = ThreadBatch::new(&config, 3);
    for _ in 0..1000 {
        record_latency(&mut a, &mut in_a, 2, 120);
    }
    record_latency(&mut b, &mut in_b, 2, 2500);
    flush_thread_local(&mut a, &mut in_a);
    flush_thread_local(&mut b, &mut in_b);
    assert_eq!(latency_ms(&a, 2, 99), 120);
    assert_eq!(latency_ms(&b, 2, 50), 2500);
    assert_eq!(a.window_total(2), Some(1000));
    assert_eq!(b.window_total(2), Some(1));
}

#[test]
fn usage_example() {
    let config = Config::default();
    let mut metrics = LatencyTracker::new(config);
    let mut thread = ThreadBatch::new(&config, 17);
    for lat_ms in [120, 250, 80] {
        record_latency(&mut metrics, &mut thread, 1, lat_ms);
    }
    flush_thread_local(&mut metrics, &mut thread);
    assert_eq!(latency_ms(&metrics, 1, 50), 120);
    assert_eq!(latency_ms(&metrics, 1, 90), 250);
    assert_eq!(latency_ms(&metrics, 1, 99), 250);
}

#[test]
fn other_sizes_work_alike() {
    let config = Config::checked(30, 128, 1024, 10_000, 20).unwrap();
    assert_eq!(config.layout, Layout::Linear { max_ms: 10_000, step: 20 });
    let mut tracker = LatencyTracker::new(config);
    let mut thread = ThreadBatch::new(&config, 130);
    assert_eq!(thread.stripe, 2);
    record_latency(&mut tracker, &mut thread, 40, 9_999);
    record_latency(&mut tracker, &mut thread, 40, 99_999);
    flush_thread_local(&mut tracker, &mut thread);
    assert_eq!(latency_ms(&tracker, 70, 0), 9_980);
    assert_eq!(latency_ms(&tracker, 70, 99), 10_000);
    assert_eq!(latency_ms(&tracker, 71, 99), 0);
}

#[test]
fn window_shows_its_seconds() {
    for config in [Config::default(), Config::compact()] {
        let mut tracker = LatencyTracker::new(config);
        let mut threads = vec![ThreadBatch::new(&config, 1), ThreadBatch::new(&config, 2)];
        // Second `n` sees `n` observations of `10 * n` milliseconds by each thread.
        for now in 20..=30u64 {
            for thread in &mut threads {
                for _ in 0..now {
                    record_latency(&mut tracker, thread, now, 10 * now);
                }
            }
            for thread in &mut threads {
                flush_thread_local(&mut tracker, thread);
            }
        }
        for later in 30..=41u64 {
            let first = later - 10;
            let expected: u64 = (first.max(20)..=30).map(|n| 2 * n).sum();
            assert_eq!(tracker.window_total(later), Some(expected));
            let shortest = if first <= 30 { 10 * first.max(20) } else { 0 };
            assert_eq!(latency_ms(&tracker, later, 0), shortest);
            let longest = if first <= 30 { 300 } else { 0 };
            assert_eq!(latency_ms(&tracker, later, 99), longest);
        }
    }
}

#[test]
fn the_window_rolls_on() {
    // Threads that share a stripe, record at different rates and flush at different
    // times, over several windows.
    for config in [Config::default(), Config { flush_every: 7, ..Config::compact() }] {
        let mut tracker = LatencyTracker::new(config);
        let mut threads = vec![
            ThreadBatch::new(&config, 1),
            ThreadBatch::new(&config, 65),
            ThreadBatch::new(&config, 2),
        ];
        let mut recorded: Vec<(u64, u64)> = Vec::new();
        for now in [0, 1, 2, 3, 5, 8, 9, 10, 11, 12, 14, 20, 21, 22, 23, 33, 34, 50, 51, 90] {
            for (k, thread) in threads.iter_mut().enumerate() {
                for i in 0..(now * 3 + k as u64) % 17 {
                    let lat_ms = (now * 37 + i * 101 + k as u64 * 11) % 1000;
                    record_latency(&mut tracker, thread, now, lat_ms);
                    recorded.push((now, lat_ms));
                }
            }
            if now % 3 != 0 {
                continue;
            }
            for thread in &mut threads {
                flush_thread_local(&mut tracker, thread);
            }
            for later in now..now + 13 {
                let mut seen: Vec<u64> = recorded
                    .iter()
                    .filter(|(sec, _)| later - sec <= 10)
                    .map(|(_, lat_ms)| *lat_ms)
                    .collect();
                seen.sort();
                assert_eq!(tracker.window_total(later), Some(seen.len() as u64));
                for p in [50, 90, 95, 99] {
                    let expected = match seen.len() {
                        0 => 0,
                        n => seen[n * p / 100] / 10 * 10,
                    };
                    assert_eq!(latency_ms(&tracker, later, p as u8), expected);
                }
            }
        }
    }
}

#[test]
fn seconds_may_come_in_any_order() {
    let config = Config { flush_every: 2, ..Config::default() };
    let mut tracker = LatencyTracker::new(config);
    let mut threads = vec![ThreadBatch::new(&config, 1), ThreadBatch::new(&config, 65)];
    let seconds = [14u64, 3, 25, 24, 13, 2, 26, 15, 4, 25, 16, 5, 0, 24];
    for (i, &now) in seconds.iter().enumerate() {
        record_latency(&mut tracker, &mut threads[i % 2], now, 10 * now);
    }
    for thread in &mut threads {
        flush_thread_local(&mut tracker, thread);
    }
    for later in 26..40 {
        let seen: Vec<u64> = seconds.iter().copied().filter(|sec| later - sec <= 10).collect();
        assert_eq!(tracker.window_total(later), Some(seen.len() as u64));
        let shortest = seen.iter().min().map_or(0, |sec| 10 * sec);
        assert_eq!(latency_ms(&tracker, later, 0), shortest);
    }
}

#[test]
fn memory_is_constant() {
    for (config, bins) in [(Config::default(), 501), (Config::compact(), 152)] {
        let mut tracker = LatencyTracker::new(config);
        let mut thread = ThreadBatch::new(&config, 5);
        for i in 0..5_000u64 {
            if i % 500 == 0 {
                assert_eq!(tracker.stripes.len(), 64);
                for stripe in &tracker.stripes {
                    assert_eq!(stripe.len(), 11);
                    assert!(stripe.iter().all(|b| b.hist.len() == bins));
                }
                assert_eq!(thread.hist.len(), bins);
            }
            record_latency(&mut tracker, &mut thread, i / 40, i);
        }
    }
}

#[test]
fn a_tracker_is_empty_until_the_first_flush() {
    let config = Config::default();
    let mut tracker = LatencyTracker::new(config);
    let mut thread = ThreadBatch::new(&config, 5);
    for i in 0..=511u64 {
        for stripe in &tracker.stripes {
            assert!(stripe.iter().all(|b| b.epoch == 0));
            assert!(stripe.iter().all(|b| b.hist.iter().all(|&count| count == 0)));
        }
        record_latency(&mut tracker, &mut thread, 4, i);
    }
    assert_eq!(tracker.get_bucket(5, 4).epoch, 4);
}

#[test]
fn nothing_is_counted_twice() {
    let config = Config { flush_every: 7, ..Config::compact() };
    let mut tracker = LatencyTracker::new(config);
    let mut thread = ThreadBatch::new(&config, 4);
    for i in 0..500u64 {
        // Seconds pass while the thread still holds observations.
        record_latency(&mut tracker, &mut thread, 1 + i / 13, i);
        let stored = tracker.window_total(0).unwrap();
        assert!(stored + thread.count as u64 <= i + 1);
    }
}

#[test]
fn recording_touches_only_the_bucket_of_its_second() {
    let config = Config { flush_every: 3, ..Config::compact() };
    let mut tracker = LatencyTracker::new(config);
    let mut thread = ThreadBatch::new(&config, 4);
    for _ in 0..10 {
        record_latency(&mut tracker, &mut thread, 25, 40);
    }
    for b in 0..11 {
        let expected = if b == 25 % 11 { 9 } else { 0 };
        assert_eq!(tracker.get_bucket(4, b).hist[4], expected);
    }
    assert_eq!(thread.hist[4], 1);
}
