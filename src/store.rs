//! The shared timing store: span names mapped to their duration
//! distributions, written by many threads at once and read by statistics
//! queries.
//!
//! The store is a concurrent map locked per shard, so writers on unrelated
//! span names do not wait on each other, and a write to one name is seen
//! whole or not at all. Since other threads may change it between any two
//! calls, the store's operations promise nothing of its contents; the
//! logic they run on each entry (`DurationFrequency::record`,
//! `statistics_of`) carries the contracts.
use dashmap::DashMap;
use std::sync::Arc;
use vstd::prelude::*;

use crate::distribution::DurationFrequency;
use crate::statistics::{
    describes, lemma_nonempty_entries, nonempty_entries, statistics_of, SpanTimingsLayerStatistics,
};

verus! {

#[verifier::external_type_specification]
#[verifier::external_body]
#[verifier::reject_recursive_types(K)]
#[verifier::reject_recursive_types(V)]
#[verifier::reject_recursive_types(S)]
pub struct ExDashMap<K, V, S>(DashMap<K, V, S>);

/// Relies on `DashMap::new`: an empty concurrent map.
#[verifier::external_body]
fn new_timing_map() -> (r: DashMap<String, DurationFrequency>) {
    DashMap::new()
}

/// Relies on `DashMap::entry` with `Entry::and_modify` and
/// `Entry::or_insert_with`: under the write lock of `name`'s shard, records
/// `d` into the existing distribution, or inserts a distribution holding
/// `d` alone.
#[verifier::external_body]
fn record_in(map: &DashMap<String, DurationFrequency>, name: String, d: u64, max_datapoints: usize) {
    map.entry(name).and_modify(|f| f.record(d, max_datapoints)).or_insert_with(
        || DurationFrequency::single(d),
    );
}

/// Relies on `DashMap::iter`: a copy of every entry, each taken under its
/// shard's read lock, so that each distribution is one that was stored.
#[verifier::external_body]
fn snapshot(map: &DashMap<String, DurationFrequency>) -> (r: Vec<(String, DurationFrequency)>) {
    map.iter().map(|kv| (kv.key().clone(), kv.value().copy())).collect()
}

/// `st` gives the statistics of some non-empty distribution for the
/// percentiles `requested`.
pub open spec fn describes_some(st: SpanTimingsLayerStatistics, requested: Seq<i64>) -> bool {
    exists|s: Seq<(u64, usize)>| s.len() > 0 && #[trigger] describes(st, s, requested)
}

/// Hook for span lifecycle events: the host tracing system hands it the
/// elapsed time of each closing span, which it records in the store.
pub struct SpanTimingsLayer {
    span_timings: Arc<DashMap<String, DurationFrequency>>,
    max_timing_datapoints_per_span: usize,
}

/// Shared handle on the store, for statistics queries. Cloning it clones
/// the reference, not the store.
#[derive(Clone)]
pub struct SpanTimingsPtr(Arc<DashMap<String, DurationFrequency>>);

impl SpanTimingsLayer {
    /// The bound on observations kept per span name (`0`: no bound).
    pub closed spec fn max_datapoints(&self) -> usize {
        self.max_timing_datapoints_per_span
    }

    /// Creates an empty store and returns its recording hook and its query
    /// handle.
    ///
    /// `max_timings_per_span` is the greatest number of observations kept
    /// per span name; `0` keeps every observation, so memory grows without
    /// bound in a long-running program.
    pub fn new(max_timings_per_span: usize) -> (r: (SpanTimingsLayer, SpanTimingsPtr))
        ensures
            r.0.max_datapoints() == max_timings_per_span,
    {
        let span_timings = Arc::new(new_timing_map());
        let handle = SpanTimingsPtr(span_timings.clone());
        (
            SpanTimingsLayer {
                span_timings,
                max_timing_datapoints_per_span: max_timings_per_span,
            },
            handle,
        )
    }

    /// The bound on observations kept per span name (`0`: no bound).
    pub fn max_timings_per_span(&self) -> (r: usize)
        ensures
            r == self.max_datapoints(),
    {
        self.max_timing_datapoints_per_span
    }

    /// Records that a span named `name` took `elapsed` nanoseconds, as
    /// `DurationFrequency::record` does with this layer's bound.
    pub fn record(&self, name: String, elapsed: u64) {
        record_in(&self.span_timings, name, elapsed, self.max_timing_datapoints_per_span);
    }
}

impl SpanTimingsPtr {
    /// The statistics of every span name with at least one observation,
    /// for the requested percentiles (fixed point, `PERCENTILE_SCALE` units
    /// to one percent; those outside `[0, 100)` percent are left out).
    ///
    /// Each span's statistics are those of a state its distribution held
    /// while the call ran; `statistics_of` gives them exactly for a given
    /// set of distributions.
    pub fn get_statistics(&self, percentiles: &Vec<i64>) -> (r: Vec<
        (String, SpanTimingsLayerStatistics),
    >)
        ensures
            forall|i: int|
                0 <= i < r@.len() ==> describes_some(#[trigger] r@[i].1, percentiles@),
            forall|i: int|
                0 <= i < r@.len() ==> #[trigger] r@[i].1.min <= r@[i].1.avg <= r@[i].1.max,
    {
        let entries = snapshot(&self.0);
        let r = statistics_of(&entries, percentiles);
        proof {
            assert forall|i: int|
                0 <= i < r@.len() implies describes_some(#[trigger] r@[i].1, percentiles@) by {
                lemma_nonempty_entries(entries@);
                let f = nonempty_entries(entries@)[i].1;
                assert(f@.len() > 0 && describes(r@[i].1, f@, percentiles@));
            }
        }
        r
    }
}

} // verus!
