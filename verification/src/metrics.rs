//! What the engine reports to an observer.

use vstd::prelude::*;

use crate::error::InoxSetError;
use crate::types::{Period, PeriodState};

verus! {

/// Observer of engine events. Methods must not fail or block.
pub trait Metrics: Send + Sync {
    /// A data part was written.
    fn bitmap_written(&self, event: &str, period: &Period, bytes: u64, cardinality: u64);

    /// A delta part was written.
    fn delta_written(&self, event: &str, period: &Period, bits_removed: u64);

    /// A write reached a period that had closed `lag_seconds` before.
    fn backfill_write(&self, event: &str, period: &Period, lag_seconds: u64);

    /// A read merged this many parts.
    fn bitmap_read(
        &self,
        event: &str,
        period: &Period,
        data_parts: u32,
        delta_parts: u32,
        duration_us: u64,
    );

    /// A rollup propagated a bitmap from one period to another.
    fn rollup_performed(&self, event: &str, from: &Period, to: &Period);

    /// The write buffer was flushed.
    fn mempart_flushed(&self, data_parts: u32, delta_parts: u32, bytes: u64);

    /// A compaction run completed.
    fn compaction_completed(
        &self,
        periods: u32,
        parts_merged: u32,
        deltas_applied: u32,
        bytes_reclaimed: u64,
    );

    /// A period changed its state.
    fn period_state_changed(
        &self,
        event: &str,
        period: &Period,
        from: &PeriodState,
        to: &PeriodState,
    );

    /// An error was produced.
    fn error_occurred(&self, error: &InoxSetError);
}

/// An observer that discards everything.
pub struct NullMetrics;

impl Metrics for NullMetrics {
    fn bitmap_written(&self, event: &str, period: &Period, bytes: u64, cardinality: u64) {
    }

    fn delta_written(&self, event: &str, period: &Period, bits_removed: u64) {
    }

    fn backfill_write(&self, event: &str, period: &Period, lag_seconds: u64) {
    }

    fn bitmap_read(
        &self,
        event: &str,
        period: &Period,
        data_parts: u32,
        delta_parts: u32,
        duration_us: u64,
    ) {
    }

    fn rollup_performed(&self, event: &str, from: &Period, to: &Period) {
    }

    fn mempart_flushed(&self, data_parts: u32, delta_parts: u32, bytes: u64) {
    }

    fn compaction_completed(
        &self,
        periods: u32,
        parts_merged: u32,
        deltas_applied: u32,
        bytes_reclaimed: u64,
    ) {
    }

    fn period_state_changed(
        &self,
        event: &str,
        period: &Period,
        from: &PeriodState,
        to: &PeriodState,
    ) {
    }

    fn error_occurred(&self, error: &InoxSetError) {
    }
}

} // verus!
