//! Recording and reading, over both histogram layouts.

use latency_tracker::batch::ThreadBatch;
use latency_tracker::bins::{bin_to_latency_ms, latency_to_bin};
use latency_tracker::config::Config;
use latency_tracker::tracker::{flush_thread_local, latency_ms, record_latency, LatencyTracker};

/// The second in which the tests record.
const NOW: u64 = 7;

fn configs() -> [Config; 2] {
    [Config::default(), Config::compact()]
}

/// One thread and the tracker it records into.
struct Fixture {
    tracker: LatencyTracker,
    thread: ThreadBatch,
}

impl Fixture {
    fn new(config: Config) -> Fixture {
        Fixture {
            tracker: LatencyTracker::new(config),
            thread: ThreadBatch::new(&config, 5),
        }
    }

    fn record_latency(&mut self, lat_ms: u64) {
        record_latency(&mut self.tracker, &mut self.thread, NOW, lat_ms);
    }

    fn flush_thread_local(&mut self) {
        flush_thread_local(&mut self.tracker, &mut self.thread);
    }

    fn latency_ms(&self, percentile: u8) -> u64 {
        latency_ms(&self.tracker, NOW, percentile)
    }
}

#[test]
fn latency_to_bin_linear() {
    for config in configs() {
        assert_eq!(latency_to_bin(&config.layout, 0), 0);
        assert_eq!(latency_to_bin(&config.layout, 10), 1);
        assert_eq!(latency_to_bin(&config.layout, 100), 10);
        assert_eq!(latency_to_bin(&config.layout, 1000), 100);
    }
}

#[test]
fn latency_to_bin_clamps_max() {
    for config in configs() {
        let layout = config.layout;
        let max = layout.max_latency_ms();
        assert_eq!(latency_to_bin(&layout, max), layout.bins() - 1);
        assert_eq!(latency_to_bin(&layout, max * 10), layout.bins() - 1);
    }
}

#[test]
fn latency_to_bin_monotonic() {
    for config in configs() {
        let mut prev = latency_to_bin(&config.layout, 0);

        for value in 1..10_000 {
            let current = latency_to_bin(&config.layout, value);

            assert!(
                current >= prev,
                "value={value} current={current} prev={prev}"
            );

            prev = current;
        }
    }
}

#[test]
fn bin_to_latency_monotonic() {
    for config in configs() {
        let mut prev = 0;

        for bin in 0..config.layout.bins() {
            let value = bin_to_latency_ms(&config.layout, bin);

            assert!(
                value >= prev,
                "bin={bin} value={value} prev={prev}"
            );

            prev = value;
        }
    }
}

#[test]
fn last_bin_maps_to_max_latency() {
    for config in configs() {
        let layout = config.layout;
        assert_eq!(
            bin_to_latency_ms(&layout, layout.bins() - 1),
            layout.max_latency_ms()
        );
    }
}

#[test]
fn invalid_percentile_returns_zero() {
    for config in configs() {
        let mut f = Fixture::new(config);
        assert_eq!(f.latency_ms(100), 0);
        assert_eq!(f.latency_ms(255), 0);

        f.record_latency(500);
        f.flush_thread_local();
        assert_eq!(f.latency_ms(99), 500);
        assert_eq!(f.latency_ms(100), 0);
        assert_eq!(f.latency_ms(255), 0);
    }
}

#[test]
fn percentile_ordering() {
    for config in configs() {
        let mut f = Fixture::new(config);
        for value in 1..=1000 {
            f.record_latency(value);
        }

        f.flush_thread_local();

        let p50 = f.latency_ms(50);
        let p90 = f.latency_ms(90);
        let p95 = f.latency_ms(95);
        let p99 = f.latency_ms(99);

        assert!(p50 <= p90);
        assert!(p90 <= p95);
        assert!(p95 <= p99);
    }
}

#[test]
fn constant_distribution() {
    for config in configs() {
        let mut f = Fixture::new(config);
        for _ in 0..20_000 {
            f.record_latency(500);
        }

        f.flush_thread_local();

        let p50 = f.latency_ms(50);
        let p90 = f.latency_ms(90);
        let p99 = f.latency_ms(99);

        assert!(p50 >= 490);
        assert!(p90 >= 490);
        assert!(p99 >= 490);
    }
}

#[test]
fn uniform_distribution() {
    for config in configs() {
        let mut f = Fixture::new(config);
        for value in 1..=1000 {
            for _ in 0..100 {
                f.record_latency(value);
            }
        }

        f.flush_thread_local();

        let p50 = f.latency_ms(50);
        let p90 = f.latency_ms(90);
        let p99 = f.latency_ms(99);

        assert!(
            (400..=600).contains(&p50),
            "p50={p50}"
        );

        assert!(
            p90 > 800,
            "p90={p90}"
        );

        assert!(
            p99 > 950,
            "p99={p99}"
        );
    }
}

#[test]
fn heavy_tail_distribution() {
    for config in configs() {
        let mut f = Fixture::new(config);
        for _ in 0..99_000 {
            f.record_latency(10);
        }

        for _ in 0..1_000 {
            f.record_latency(1000);
        }

        f.flush_thread_local();

        let p50 = f.latency_ms(50);
        let p90 = f.latency_ms(90);
        let p99 = f.latency_ms(99);

        println!("p50={p50} p90={p90} p99={p99}");
        assert!(p50 < 100, "p50={p50}");
        assert!(p90 < 100, "p90={p90}");
        assert!(p99 >= 900, "p99={p99}");
    }
}

#[test]
fn flush_thread_local_makes_data_visible() {
    for config in configs() {
        let mut f = Fixture::new(config);
        for _ in 0..10 {
            f.record_latency(500);
        }

        f.flush_thread_local();

        assert!(f.latency_ms(99) > 0);
    }
}

#[test]
fn multi_threaded_recording() {
    for config in configs() {
        let mut tracker = LatencyTracker::new(config);
        let mut threads = Vec::new();

        for hash in 0..16 {
            threads.push(ThreadBatch::new(&config, hash));
        }

        for _ in 0..10_000 {
            for thread in &mut threads {
                record_latency(&mut tracker, thread, NOW, 500);
            }
        }

        for thread in &mut threads {
            flush_thread_local(&mut tracker, thread);
        }

        let p99 = latency_ms(&tracker, NOW, 99);

        assert!(
            p99 >= 490,
            "p99={p99}"
        );
    }
}

#[test]
fn percentile_close_to_real_distribution() {
    for config in configs() {
        let mut f = Fixture::new(config);
        let mut values = Vec::new();

        for _ in 0..100_000 {
            let value = rand::random_range(1..1000);

            values.push(value);

            f.record_latency(value);
        }

        f.flush_thread_local();

        values.sort_unstable();

        let real_p99 =
            values[(values.len() * 99) / 100];

        let measured =
            f.latency_ms(99);

        let error =
            (measured as i64 - real_p99 as i64).abs();

        assert!(
            error < 100,
            "real_p99={real_p99}, measured={measured}, error={error}"
        );
    }
}

#[test]
fn million_samples_stress() {
    for config in configs() {
        let mut f = Fixture::new(config);
        for i in 0..1_000_000 {
            f.record_latency(
                (i % 1000 + 1) as u64
            );
        }

        f.flush_thread_local();

        let p99 = f.latency_ms(99);

        assert!(
            p99 > 900,
            "p99={p99}"
        );
    }
}
