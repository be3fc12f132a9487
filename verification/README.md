# latency_tracker

A latency percentile tracker whose logic is verified with Verus.

Threads count latencies in a batch of their own and flush it into a striped set
of per-second histograms. Percentiles (P50, P90, P95, P99) are read from the
buckets that belong to a rolling window, without keeping individual samples.

## Layout

- `src/config.rs`: the sizes of a tracker, their defaults, how they are read from
  settings and which values are rejected.
- `src/bins.rs`, `src/log_scale.rs`: histogram bins. The default layout is linear,
  ten milliseconds wide up to five seconds. The compact layout is linear up to one
  second and logarithmic above.
- `src/batch.rs`: what a thread holds back and when it flushes.
- `src/bucket.rs`, `src/tracker.rs`: what a flush does to a bucket, and the tracker
  with `record_latency`, `flush_thread_local` and `latency_ms`.
- `src/rank.rs`, `src/window.rs`: the rank of a percentile, the histogram of a
  window and the percentile of a histogram.
- `src/hist.rs`: histograms as sequences of counts.
- `src/flush_laws.rs`, `src/window_laws.rs`, `src/record_laws.rs`: laws that relate
  several operations, such as that what threads record is what is read back.
- `tests/`: tests on concrete values.
- `app/`: trackers for a running process, with atomic buckets, thread-local batches
  and the clock.

## Configuration

| Parameter | Setting | Default |
|-----------|---------|---------|
| Window | `LATENCY_TRACKER_WINDOW` | `10` seconds |
| Stripes | `LATENCY_TRACKER_STRIPES` | `64` |
| Flush threshold | `LATENCY_TRACKER_FLUSH_EVERY` | `512` samples |
| Histogram step | `LATENCY_TRACKER_LINEAR_STEP` | `10` ms |
| Maximum tracked latency | `LATENCY_TRACKER_LINEAR_MAX_MS` | `5000` ms |

All values must be greater than zero, the number of stripes a power of two, and
the maximum latency a multiple of the step. In `app/` the settings are fixed when it
is compiled and checked when the first tracker is made. Percentiles above 99 read as zero.

## What is proved

- However threads record as time passes, and however long they hold observations
  back: once they have flushed, a window shows exactly the latencies that were
  recorded in its seconds. A bucket that is reused for a later second keeps nothing
  of the earlier one.
- A percentile is what the histogram shows of the latency at its rank. For P50,
  P90, P95 and P99 that is the latency at `count * p / 100` of the sorted list, read
  less than one bin too low in the linear range. It holds for P50 of fewer than
  `2^53` latencies, P90 and P95 of fewer than `2^50` and P99 of fewer than `2^47`;
  beyond that and below `2^53`, for exactly the counts that double-precision
  arithmetic does not round to the next rank.
- Percentiles are ordered, bounded by the maximum latency, and zero for an empty
  window.
- A tracker keeps its size, and is empty until the first flush.
- Flushes of a second may overlap bin by bin: a claim writes by additions too, so
  nothing is lost. The other laws take every flush as a whole.
