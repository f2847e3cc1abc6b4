use high_perf_trading::metrics::Metrics;

#[test]
fn counters_and_text() {
    let mut m = Metrics::default();
    m.inc_connections();
    m.inc_frames_in();
    m.inc_frames_in();
    m.inc_frames_out();
    m.inc_fills();
    m.inc_rejects();
    m.queue_inc();
    m.queue_dec();
    m.queue_dec();
    let t = m.render_prom_text();
    assert_eq!(
        t,
        "exchange_connections 1\n            exchange_frames_in 2\n            exchange_frames_out 1\n            exchange_fills_total 1\n            exchange_rejects_total 1\n            exchange_engine_in_queue_depth -1\n            "
    );
}

#[test]
fn counters_wrap() {
    let mut m = Metrics::default();
    m.fills_total = u64::MAX;
    m.inc_fills();
    assert_eq!(m.fills_total, 0);
    m.engine_in_queue_depth = i64::MIN;
    m.queue_dec();
    assert_eq!(m.engine_in_queue_depth, i64::MAX);
    assert!(m.render_prom_text().contains("exchange_engine_in_queue_depth 9223372036854775807\n"));
}
