use download_pool::pacing::{poll_timeout_ms, tick_due};
use download_pool::worker::{percent_complete, WorkerRun};

#[test]
fn percent_exact_values() {
    assert_eq!(percent_complete(0, 10), 0);
    assert_eq!(percent_complete(5, 10), 50);
    assert_eq!(percent_complete(10, 10), 100);
    assert_eq!(percent_complete(1, 3), 33);
    assert_eq!(percent_complete(2, 3), 66);
    assert_eq!(percent_complete(1024, 2048), 50);
}

#[test]
fn percent_unknown_total_is_zero() {
    assert_eq!(percent_complete(0, 0), 0);
}

#[test]
fn percent_huge_values_no_overflow() {
    assert_eq!(percent_complete(u64::MAX, u64::MAX), 100);
    assert_eq!(percent_complete(u64::MAX / 2, u64::MAX), 49);
}

#[test]
fn worker_run_reports_monotone_percents() {
    let mut run = WorkerRun::begin(10);
    let mut last = 0u64;
    let mut reports = Vec::new();
    while !run.is_finished() {
        let pct = run.advance(4);
        assert!(pct >= last, "progress went backwards");
        last = pct;
        reports.push(pct);
    }
    assert_eq!(reports, vec![40, 80, 100]);
}

#[test]
fn worker_run_chunk_never_overshoots() {
    let mut run = WorkerRun::begin(3);
    let pct = run.advance(10);
    assert_eq!(pct, 100);
    assert!(run.is_finished());
}

#[test]
fn worker_run_zero_size_finishes_at_zero_percent() {
    let mut run = WorkerRun::begin(0);
    assert!(run.is_finished());
    let pct = run.advance(10);
    assert_eq!(pct, 0);
}

#[test]
fn poll_timeout_counts_down_to_zero() {
    assert_eq!(poll_timeout_ms(200, 0), 200);
    assert_eq!(poll_timeout_ms(200, 50), 150);
    assert_eq!(poll_timeout_ms(200, 200), 0);
    assert_eq!(poll_timeout_ms(200, 250), 0);
}

#[test]
fn tick_due_at_the_interval() {
    assert!(!tick_due(200, 199));
    assert!(tick_due(200, 200));
    assert!(tick_due(200, 201));
}
