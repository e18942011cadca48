use download_pool::event::{Event, Outcome};
use download_pool::pool::Downloads;
use download_pool::task::Task;

const QUIT: u8 = 113;

fn task(id: u64, name: &str, size: u64) -> Task {
    Task { id, name: name.to_string(), size }
}

fn total_of(d: &Downloads) -> usize {
    let s = d.snapshot();
    s.pending_count + s.in_progress.len() + s.completed_count + s.errored_count
}

#[test]
fn new_run_is_empty() {
    let d = Downloads::new();
    let s = d.snapshot();
    assert_eq!(s.pending_count, 0);
    assert_eq!(s.in_progress.len(), 0);
    assert_eq!(s.completed_count, 0);
    assert_eq!(s.errored_count, 0);
    assert_eq!(d.quit_key, QUIT);
    assert!(!d.refeed_on_error);
}

#[test]
fn start_dispatches_backlog_heads_in_worker_order() {
    let mut d = Downloads::with_pool(2, QUIT, false);
    assert!(d.push_task(task(1, "a", 10)));
    assert!(d.push_task(task(2, "b", 20)));
    assert!(d.push_task(task(3, "c", 30)));
    let asg = d.start(0);
    assert_eq!(asg.len(), 2);
    assert_eq!((asg[0].worker, asg[0].task_id, asg[0].size), (0, 1, 10));
    assert_eq!((asg[1].worker, asg[1].task_id, asg[1].size), (1, 2, 20));
    let s = d.snapshot();
    assert_eq!(s.pending_count, 1);
    assert_eq!(s.in_progress.len(), 2);
    assert_eq!(s.in_progress[0].name, "a");
    assert_eq!(s.in_progress[1].name, "b");
}

#[test]
fn start_with_more_workers_than_tasks_leaves_slots_idle() {
    let mut d = Downloads::with_pool(3, QUIT, false);
    assert!(d.push_task(task(7, "only", 5)));
    let asg = d.start(0);
    assert_eq!(asg.len(), 1);
    assert_eq!(asg[0].worker, 0);
    let s = d.snapshot();
    assert_eq!(s.pending_count, 0);
    assert_eq!(s.in_progress.len(), 1);
}

#[test]
fn duplicate_task_id_is_rejected() {
    let mut d = Downloads::with_pool(1, QUIT, false);
    assert!(d.push_task(task(1, "a", 10)));
    assert!(!d.push_task(task(1, "again", 10)));
    let asg = d.start(0);
    assert_eq!(asg.len(), 1);
    // id 1 is now in progress, still rejected
    assert!(!d.push_task(task(1, "third", 10)));
    // a fresh id is fine
    assert!(d.push_task(task(2, "b", 10)));
}

#[test]
fn terminal_task_ids_stay_reserved() {
    let mut d = Downloads::with_pool(1, QUIT, false);
    assert!(d.push_task(task(1, "a", 10)));
    assert!(d.push_task(task(2, "b", 10)));
    d.start(0);
    d.handle_event(Event::TaskDone { worker: 0, task: 1 }, 1);
    d.handle_event(
        Event::TaskError { worker: 0, task: 2, message: "boom".to_string() },
        2,
    );
    // ids that reached a terminal state are never reused
    assert!(!d.push_task(task(1, "a again", 10)));
    assert!(!d.push_task(task(2, "b again", 10)));
    assert!(d.push_task(task(3, "c", 10)));
}

#[test]
fn zero_workers_dispatch_nothing() {
    let mut d = Downloads::new();
    assert!(d.push_task(task(1, "a", 10)));
    let asg = d.start(0);
    assert!(asg.is_empty());
    assert_eq!(d.snapshot().pending_count, 1);
    // an event addressed to a worker slot that does not exist is stale
    let st = d.handle_event(Event::TaskDone { worker: 0, task: 1 }, 1);
    assert!(st.completion.is_none());
    assert_eq!(total_of(&d), 1);
}

#[test]
fn example_trace_two_tasks_one_worker() {
    let mut d = Downloads::with_pool(1, QUIT, false);
    assert!(d.push_task(task(1, "A", 10)));
    assert!(d.push_task(task(2, "B", 10)));
    let asg = d.start(0);
    assert_eq!(asg.len(), 1);
    assert_eq!((asg[0].worker, asg[0].task_id), (0, 1));

    let st = d.handle_event(Event::ProgressUpdate { worker: 0, task: 1, percent: 50 }, 1);
    assert!(!st.redraw);
    assert_eq!(st.outcome, Outcome::KeepGoing);
    assert_eq!(d.snapshot().in_progress[0].progress, 50);

    let st = d.handle_event(Event::ProgressUpdate { worker: 0, task: 1, percent: 100 }, 2);
    assert!(!st.redraw);
    assert_eq!(d.snapshot().in_progress[0].progress, 100);

    let st = d.handle_event(Event::TaskDone { worker: 0, task: 1 }, 3);
    assert!(st.redraw);
    assert!(!st.all_done);
    let a = st.assignment.expect("worker must be refed at once");
    assert_eq!((a.worker, a.task_id), (0, 2));
    let done = st.completion.expect("a completion notice is owed");
    assert_eq!(done.name, "A");
    assert_eq!(done.elapsed_ms, 3);

    let st = d.handle_event(Event::ProgressUpdate { worker: 0, task: 2, percent: 100 }, 4);
    assert_eq!(st.outcome, Outcome::KeepGoing);
    let st = d.handle_event(Event::TaskDone { worker: 0, task: 2 }, 5);
    assert!(st.all_done);
    assert_eq!(st.outcome, Outcome::Finished);
    assert!(st.assignment.is_none());
    let s = d.snapshot();
    assert_eq!(s.pending_count, 0);
    assert_eq!(s.in_progress.len(), 0);
    assert_eq!(s.completed_count, 2);
}

#[test]
fn five_tasks_two_workers_run_to_completion() {
    let mut d = Downloads::with_pool(2, QUIT, false);
    for id in 1..=5u64 {
        assert!(d.push_task(task(id, &format!("t{}", id), 10)));
    }
    let asg = d.start(0);
    assert_eq!(asg.len(), 2);
    let mut finished_notices = 0;
    let mut done_order = vec![(0u64, 1u64), (1, 2), (0, 3), (1, 4), (0, 5)];
    let mut outstanding = vec![(0usize, 1u64), (1, 2)];
    let mut steps = 0;
    while let Some((w, t)) = done_order.first().copied() {
        done_order.remove(0);
        assert_eq!(total_of(&d), 5, "conservation violated");
        let st = d.handle_event(Event::TaskDone { worker: w as usize, task: t }, 10 + steps);
        steps += 1;
        outstanding.retain(|&(ow, ot)| !(ow == w as usize && ot == t));
        if let Some(a) = st.assignment {
            assert_eq!(a.worker, w as usize, "the freed worker gets the next task");
            outstanding.push((a.worker, a.task_id));
        }
        if st.all_done {
            finished_notices += 1;
            assert_eq!(st.outcome, Outcome::Finished);
        } else {
            assert_eq!(st.outcome, Outcome::KeepGoing);
        }
    }
    assert_eq!(finished_notices, 1, "exactly one final notice");
    assert!(outstanding.is_empty());
    let s = d.snapshot();
    assert_eq!(s.pending_count, 0);
    assert_eq!(s.in_progress.len(), 0);
    assert_eq!(s.completed_count, 5);
    assert_eq!(s.errored_count, 0);
}

#[test]
fn quit_key_exits_regardless_of_outstanding_work() {
    let mut d = Downloads::with_pool(2, QUIT, false);
    assert!(d.push_task(task(1, "a", 10)));
    assert!(d.push_task(task(2, "b", 10)));
    d.start(0);
    let before = total_of(&d);
    let st = d.handle_event(Event::Input { key: QUIT }, 1);
    assert_eq!(st.outcome, Outcome::Quit);
    assert!(st.redraw);
    assert_eq!(total_of(&d), before, "quit changes no task state");
    assert_eq!(d.snapshot().in_progress.len(), 2);
}

#[test]
fn other_keys_and_custom_quit_key() {
    let mut d = Downloads::with_pool(1, b'x', false);
    let st = d.handle_event(Event::Input { key: QUIT }, 0);
    assert_eq!(st.outcome, Outcome::KeepGoing);
    let st = d.handle_event(Event::Input { key: b'x' }, 0);
    assert_eq!(st.outcome, Outcome::Quit);
}

#[test]
fn tick_and_resize_only_request_a_redraw() {
    let mut d = Downloads::with_pool(1, QUIT, false);
    assert!(d.push_task(task(1, "a", 10)));
    d.start(0);
    let before = total_of(&d);
    let st = d.handle_event(Event::Tick, 1);
    assert_eq!(st.outcome, Outcome::KeepGoing);
    assert!(st.redraw);
    assert!(st.assignment.is_none() && st.completion.is_none() && st.failure.is_none());
    let st = d.handle_event(Event::Resize, 2);
    assert_eq!(st.outcome, Outcome::KeepGoing);
    assert!(st.redraw);
    assert_eq!(total_of(&d), before);
}

#[test]
fn stale_events_are_ignored() {
    let mut d = Downloads::with_pool(2, QUIT, false);
    assert!(d.push_task(task(1, "a", 10)));
    d.start(0);
    // wrong task id for a busy worker
    d.handle_event(Event::ProgressUpdate { worker: 0, task: 9, percent: 40 }, 1);
    assert_eq!(d.snapshot().in_progress[0].progress, 0);
    // idle worker
    d.handle_event(Event::ProgressUpdate { worker: 1, task: 1, percent: 40 }, 2);
    assert_eq!(d.snapshot().in_progress[0].progress, 0);
    // worker index out of range
    d.handle_event(Event::ProgressUpdate { worker: 7, task: 1, percent: 40 }, 3);
    // out-of-range percentage
    d.handle_event(Event::ProgressUpdate { worker: 0, task: 1, percent: 101 }, 4);
    assert_eq!(d.snapshot().in_progress[0].progress, 0);
    // stale terminal events
    let st = d.handle_event(Event::TaskDone { worker: 0, task: 9 }, 5);
    assert!(st.completion.is_none());
    let st = d.handle_event(Event::TaskDone { worker: 1, task: 1 }, 6);
    assert!(st.completion.is_none());
    assert_eq!(d.snapshot().completed_count, 0);
    assert_eq!(total_of(&d), 1);
}

#[test]
fn error_leaves_worker_idle_by_default() {
    let mut d = Downloads::with_pool(1, QUIT, false);
    assert!(d.push_task(task(1, "a", 10)));
    assert!(d.push_task(task(2, "b", 10)));
    d.start(0);
    let st = d.handle_event(
        Event::TaskError { worker: 0, task: 1, message: "boom".to_string() },
        5,
    );
    assert!(st.assignment.is_none(), "an errored worker is not refed");
    assert!(!st.all_done, "a task is still pending");
    assert_eq!(st.outcome, Outcome::KeepGoing);
    let f = st.failure.expect("a failure notice is owed");
    assert_eq!(f.name, "a");
    assert_eq!(f.message, "boom");
    assert_eq!(d.errored[0].message, "boom");
    let s = d.snapshot();
    assert_eq!(s.pending_count, 1);
    assert_eq!(s.in_progress.len(), 0);
    assert_eq!(s.errored_count, 1);
    assert_eq!(total_of(&d), 2);
}

#[test]
fn error_refeeds_when_the_policy_says_so() {
    let mut d = Downloads::with_pool(1, QUIT, true);
    assert!(d.push_task(task(1, "a", 10)));
    assert!(d.push_task(task(2, "b", 10)));
    d.start(0);
    let st = d.handle_event(
        Event::TaskError { worker: 0, task: 1, message: "boom".to_string() },
        5,
    );
    let a = st.assignment.expect("refeed policy hands out the next task");
    assert_eq!((a.worker, a.task_id), (0, 2));
    assert!(!st.all_done);
    assert_eq!(total_of(&d), 2);
}

#[test]
fn last_error_with_empty_backlog_finishes_the_run() {
    let mut d = Downloads::with_pool(1, QUIT, false);
    assert!(d.push_task(task(1, "a", 10)));
    d.start(0);
    let st = d.handle_event(
        Event::TaskError { worker: 0, task: 1, message: "boom".to_string() },
        5,
    );
    assert!(st.all_done);
    assert_eq!(st.outcome, Outcome::Finished);
    assert_eq!(total_of(&d), 1);
}

#[test]
fn conservation_holds_across_a_mixed_run() {
    let mut d = Downloads::with_pool(2, QUIT, false);
    for id in 1..=4u64 {
        assert!(d.push_task(task(id, &format!("t{}", id), 100)));
    }
    d.start(0);
    let events = vec![
        Event::Tick,
        Event::ProgressUpdate { worker: 0, task: 1, percent: 30 },
        Event::Resize,
        Event::TaskError { worker: 1, task: 2, message: "net down".to_string() },
        Event::ProgressUpdate { worker: 0, task: 1, percent: 90 },
        Event::TaskDone { worker: 0, task: 1 },
        Event::Input { key: b'z' },
        Event::TaskDone { worker: 0, task: 3 },
        Event::ProgressUpdate { worker: 0, task: 9, percent: 10 },
        Event::TaskDone { worker: 0, task: 4 },
    ];
    let mut now = 1;
    for ev in events {
        assert_eq!(total_of(&d), 4, "conservation violated");
        d.handle_event(ev, now);
        now += 1;
    }
    let s = d.snapshot();
    assert_eq!(s.completed_count, 3);
    assert_eq!(s.errored_count, 1);
    assert_eq!(s.pending_count, 0);
    assert_eq!(s.in_progress.len(), 0);
    assert_eq!(total_of(&d), 4);
}

#[test]
fn clock_stepping_backwards_reports_zero_elapsed() {
    let mut d = Downloads::with_pool(1, QUIT, false);
    assert!(d.push_task(task(1, "a", 10)));
    d.start(100);
    let st = d.handle_event(Event::TaskDone { worker: 0, task: 1 }, 40);
    assert_eq!(st.completion.expect("notice owed").elapsed_ms, 0);
}

#[test]
fn snapshot_rows_match_busy_workers() {
    let mut d = Downloads::with_pool(3, QUIT, false);
    assert!(d.push_task(task(1, "a", 10)));
    assert!(d.push_task(task(2, "b", 10)));
    assert!(d.push_task(task(3, "c", 10)));
    d.start(0);
    let st = d.handle_event(Event::TaskDone { worker: 1, task: 2 }, 1);
    assert!(st.assignment.is_none());
    let s = d.snapshot();
    assert_eq!(s.in_progress.len(), 2);
    assert_eq!((s.in_progress[0].worker, s.in_progress[0].id), (0, 1));
    assert_eq!((s.in_progress[1].worker, s.in_progress[1].id), (2, 3));
}
