//! Ingest counters, the load window behind adaptive sampling advice, and the
//! agent's and server's shared state.

use vstd::prelude::*;
use std::sync::atomic::{AtomicU64, Ordering};
use std::sync::Arc;
use crate::clock::now_secs;

verus! {

/// Spans per window from which the advice starts lowering the sample rate.
pub const LOAD_SOFT: u64 = 20_000;
/// Spans per window from which the advice lowers it further.
pub const LOAD_HARD: u64 = 50_000;
/// Spans per window from which the advice is lowest.
pub const LOAD_CRITICAL: u64 = 100_000;
/// Length of the load window in seconds.
pub const WINDOW_SECS: u64 = 60;

/// Ingest pressure over the current window.
#[derive(Debug, Clone, Copy, PartialEq, Eq)]
pub enum LoadTier {
    Normal,
    Soft,
    Hard,
    Critical,
}

pub open spec fn tier_rank(t: LoadTier) -> int {
    match t {
        LoadTier::Normal => 0,
        LoadTier::Soft => 1,
        LoadTier::Hard => 2,
        LoadTier::Critical => 3,
    }
}

pub open spec fn tier_of(window_spans: u64) -> LoadTier {
    if window_spans >= LOAD_CRITICAL {
        LoadTier::Critical
    } else if window_spans >= LOAD_HARD {
        LoadTier::Hard
    } else if window_spans >= LOAD_SOFT {
        LoadTier::Soft
    } else {
        LoadTier::Normal
    }
}

/// The pressure tier of the spans counted in the current window.
pub fn load_tier(window_spans: u64) -> (t: LoadTier)
    ensures
        t == tier_of(window_spans),
{
    if window_spans >= LOAD_CRITICAL {
        LoadTier::Critical
    } else if window_spans >= LOAD_HARD {
        LoadTier::Hard
    } else if window_spans >= LOAD_SOFT {
        LoadTier::Soft
    } else {
        LoadTier::Normal
    }
}

/// Law: more load never gives a lower pressure tier.
pub proof fn law_tier_monotone(a: u64, b: u64)
    requires
        a <= b,
    ensures
        tier_rank(tier_of(a)) <= tier_rank(tier_of(b)),
{
}

/// Whether the load window that started at `start_secs` is over at `now_secs`.
pub fn window_expired(now_secs: u64, start_secs: u64) -> (r: bool)
    ensures
        r == (now_secs >= start_secs && now_secs - start_secs >= WINDOW_SECS),
{
    now_secs >= start_secs && now_secs - start_secs >= WINDOW_SECS
}

/// Counters of the server. Their values change concurrently; nothing is stated of them.
#[derive(Debug)]
pub struct ServerMetrics {
    pub spans_received: AtomicU64,
    pub spans_accepted: AtomicU64,
    pub spans_dropped_sample: AtomicU64,
    pub spans_dropped_cardinality: AtomicU64,
    pub batches_received: AtomicU64,
    pub batches_rejected: AtomicU64,
    /// Spans counted in the current adaptive-sampling window.
    pub window_spans: AtomicU64,
    /// Unix seconds when the current load window started.
    pub window_start_secs: AtomicU64,
}

impl ServerMetrics {
    /// All counters at zero, with a load window starting at `window_start_secs`.
    pub fn new(window_start_secs: u64) -> (m: ServerMetrics) {
        ServerMetrics {
            spans_received: AtomicU64::new(0),
            spans_accepted: AtomicU64::new(0),
            spans_dropped_sample: AtomicU64::new(0),
            spans_dropped_cardinality: AtomicU64::new(0),
            batches_received: AtomicU64::new(0),
            batches_rejected: AtomicU64::new(0),
            window_spans: AtomicU64::new(0),
            window_start_secs: AtomicU64::new(window_start_secs),
        }
    }

    /// Count `span_count` spans into the load window, starting a new window when
    /// the current one is over at `now_secs`.
    pub fn record_load_at(&self, now_secs: u64, span_count: u64) {
        let start = self.window_start_secs.load(Ordering::Relaxed);
        if window_expired(now_secs, start) {
            self.window_start_secs.store(now_secs, Ordering::Relaxed);
            self.window_spans.store(0, Ordering::Relaxed);
        }
        self.window_spans.fetch_add(span_count, Ordering::Relaxed);
    }

    /// Add `n` to a counter.
    pub fn bump(counter: &AtomicU64, n: u64) {
        counter.fetch_add(n, Ordering::Relaxed);
    }
}

impl Default for ServerMetrics {
    fn default() -> (m: ServerMetrics) {
        ServerMetrics::new(0)
    }
}

/// Count `span_count` incoming spans into the load window at the current time.
pub fn record_load(metrics: &ServerMetrics, span_count: usize) {
    let now = now_secs();
    metrics.record_load_at(now, span_count as u64);
}

/// Counters of the agent. Their values change concurrently; nothing is stated of them.
#[derive(Debug)]
pub struct AgentMetrics {
    pub spans_received: AtomicU64,
    pub spans_accepted: AtomicU64,
    pub batches_received: AtomicU64,
}

impl Default for AgentMetrics {
    fn default() -> (m: AgentMetrics) {
        AgentMetrics {
            spans_received: AtomicU64::new(0),
            spans_accepted: AtomicU64::new(0),
            batches_received: AtomicU64::new(0),
        }
    }
}

impl AgentMetrics {
    /// Count one accepted batch of `count` spans.
    pub fn record_batch(&self, count: u64) {
        self.batches_received.fetch_add(1, Ordering::Relaxed);
        self.spans_received.fetch_add(count, Ordering::Relaxed);
        self.spans_accepted.fetch_add(count, Ordering::Relaxed);
    }
}

/// State shared by the agent's handlers.
#[derive(Clone)]
pub struct AgentState {
    pub api_key: Option<String>,
    pub metrics: Arc<AgentMetrics>,
}

} // verus!
