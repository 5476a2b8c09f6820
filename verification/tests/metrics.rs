use ferrumdb::metrics::Metrics;

#[test]
fn counters_count_each_operation() {
    let mut m = Metrics::new();
    m.record_get();
    m.record_get();
    m.record_set();
    m.record_delete();
    m.record_delete();
    m.record_delete();
    m.record_error();
    assert_eq!(m.total_gets(), 2);
    assert_eq!(m.total_sets(), 1);
    assert_eq!(m.total_deletes(), 3);
    assert_eq!(m.total_errors(), 1);
}

#[test]
fn summary_line() {
    let mut m = Metrics::new();
    m.record_get();
    m.record_set();
    m.record_set();
    assert_eq!(m.summary("12.3"), "Uptime: 12.3s | GETs: 1 | SETs: 2 | DELETEs: 0 | Errors: 0");
    // The uptime is formatted as the caller gives it, e.g. from a float.
    let uptime = format!("{:.1}", std::time::Duration::from_nanos(150_000_000).as_secs_f64());
    assert_eq!(m.summary(&uptime), "Uptime: 0.1s | GETs: 1 | SETs: 2 | DELETEs: 0 | Errors: 0");
    m.record_error();
    assert_eq!(m.summary("0.0"), "Uptime: 0.0s | GETs: 1 | SETs: 2 | DELETEs: 0 | Errors: 1");
}
