use sqld_stats::stats::Stats;

#[test]
fn fresh_counters_start_at_zero() {
    let s = Stats::new();
    assert_eq!(s.rows_written(), 0);
    assert_eq!(s.rows_read(), 0);
}

#[test]
fn empty_snapshot_yields_zero_counters() {
    let s = Stats::from_snapshot(b"");
    assert_eq!(s.rows_written(), 0);
    assert_eq!(s.rows_read(), 0);
}

#[test]
fn increments_accumulate_exactly() {
    let mut s = Stats::new();
    s.inc_rows_written(1);
    s.inc_rows_written(2);
    s.inc_rows_written(3);
    assert_eq!(s.rows_written(), 6);
    assert_eq!(s.rows_read(), 0);
    s.inc_rows_read(4);
    assert_eq!(s.rows_written(), 6);
    assert_eq!(s.rows_read(), 4);
}

#[test]
fn increment_order_does_not_change_totals() {
    let mut a = Stats::new();
    a.inc_rows_written(5);
    a.inc_rows_written(3);
    a.inc_rows_read(10);
    a.inc_rows_read(7);

    let mut b = Stats::new();
    b.inc_rows_read(7);
    b.inc_rows_written(3);
    b.inc_rows_read(10);
    b.inc_rows_written(5);

    assert_eq!(a.rows_written(), b.rows_written());
    assert_eq!(a.rows_read(), b.rows_read());
    assert_eq!(a.rows_written(), 8);
    assert_eq!(a.rows_read(), 17);
}

#[test]
fn concrete_scenario_persists_and_reopens() {
    let mut s = Stats::new();
    s.inc_rows_written(5);
    s.inc_rows_written(3);
    s.inc_rows_read(10);
    assert_eq!(s.rows_written(), 8);
    assert_eq!(s.rows_read(), 10);

    // One persistence tick writes this document; a restart reads it back.
    let doc = s.to_snapshot();
    let reopened = Stats::from_snapshot(&doc);
    assert_eq!(reopened.rows_written(), 8);
    assert_eq!(reopened.rows_read(), 10);
}

#[test]
fn corrupt_snapshot_yields_zero_counters() {
    let s = Stats::from_snapshot(b"not a snapshot document");
    assert_eq!(s.rows_written(), 0);
    assert_eq!(s.rows_read(), 0);

    // A truncated document from an interrupted write.
    let full = Stats::new().to_snapshot();
    let cut = Stats::from_snapshot(&full[..full.len() - 1]);
    assert_eq!(cut.rows_written(), 0);
    assert_eq!(cut.rows_read(), 0);
}

#[test]
fn snapshot_of_current_totals_round_trips() {
    let mut s = Stats::new();
    s.inc_rows_written(usize::MAX);
    s.inc_rows_read(123456789);
    let doc = s.to_snapshot();
    let reopened = Stats::from_snapshot(&doc);
    assert_eq!(reopened.rows_written(), usize::MAX);
    assert_eq!(reopened.rows_read(), 123456789);
}
