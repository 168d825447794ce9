use inoxset::metrics::{Metrics, NullMetrics};
use inoxset::types::Period;

#[test]
fn null_metrics_is_send_sync() {
    fn assert_send_sync<T: Send + Sync>() {}
    assert_send_sync::<NullMetrics>();
}

#[test]
fn null_metrics_callable() {
    let m = NullMetrics;
    m.bitmap_written("test", &Period::Static, 100, 50);
    m.mempart_flushed(3, 1, 1024);
}
