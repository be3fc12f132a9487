//! Latency percentiles over a rolling window of per-second histograms.
//!
//! Each thread counts its observations in a [`batch::ThreadBatch`] and flushes
//! them into one stripe of a [`tracker::LatencyTracker`]; percentiles are read
//! from the buckets of all stripes that belong to the window. The clock and the
//! identity of threads come from the caller: every operation takes the current
//! second, so all of it can be stated and proved.

pub mod batch;
pub mod bins;
pub mod bucket;
pub mod config;
pub mod config_laws;
pub mod flush_laws;
pub mod hist;
pub mod log_scale;
pub mod rank;
pub mod record_laws;
pub mod tracker;
pub mod window;
pub mod window_laws;

pub use crate::batch::ThreadBatch;
pub use crate::config::Config;
pub use crate::tracker::{flush_thread_local, latency_ms, record_latency, LatencyTracker};
