use file_watcher::{
    should_stop, sleep_after, FileResults, Outcomes, Poll, StopCondition, Tracker, Watcher,
    WorkQueue, SECOND,
};

/// A file of a simulated directory: its path, the instant it appears, and its
/// modification time; `None` where its metadata can never be read.
struct Fake {
    path: &'static str,
    appears: u64,
    modified: Option<u64>,
}

fn scan_at(files: &[Fake], now: u64) -> Vec<(String, Result<u64, String>)> {
    files
        .iter()
        .filter(|f| f.appears <= now)
        .map(|f| {
            let read = match f.modified {
                Some(m) => Ok(m),
                None => Err("permission denied".to_string()),
            };
            (f.path.to_string(), read)
        })
        .collect()
}

fn callback(path: &str) -> Result<usize, String> {
    if path.contains("bad") {
        Err(format!("cannot process {path}"))
    } else {
        Ok(path.len())
    }
}

/// Runs an inline watch over simulated time, one tick per `interval`.
fn run_inline(files: &[Fake], cond: StopCondition, threshold: u64, interval: u64) -> FileResults<usize, String> {
    let mut tracker: Tracker<usize, String> = Tracker::new(0);
    let mut now = 0;
    loop {
        for path in tracker.observe_all(scan_at(files, now), now, threshold) {
            let outcome = callback(&path);
            assert!(tracker.settle(&path, outcome));
        }
        if should_stop(cond, tracker.processed_count(), 0, tracker.newest(), now) {
            break;
        }
        now += interval;
    }
    tracker.into_results()
}

/// Runs a pooled watch over simulated time: matured paths go to a queue, and
/// one worker takes one path per tick; the queue is drained after the stop.
fn run_pooled(files: &[Fake], cond: StopCondition, threshold: u64, interval: u64) -> FileResults<usize, String> {
    let mut tracker: Tracker<usize, String> = Tracker::new(0);
    let mut queue = WorkQueue::new();
    let mut successes: Outcomes<usize> = Outcomes::new();
    let mut errors: Outcomes<String> = Outcomes::new();
    let work = |queue: &mut WorkQueue, successes: &mut Outcomes<usize>, errors: &mut Outcomes<String>| -> bool {
        match queue.pop() {
            Poll::Item(p) => {
                match callback(&p) {
                    Ok(t) => successes.insert(p, t),
                    Err(e) => errors.insert(p, e),
                }
                true
            }
            Poll::Idle => true,
            Poll::Done => false,
        }
    };
    let mut now = 0;
    loop {
        for path in tracker.observe_all(scan_at(files, now), now, threshold) {
            assert!(queue.push(path));
        }
        if should_stop(cond, successes.len(), 0, tracker.newest(), now) {
            break;
        }
        work(&mut queue, &mut successes, &mut errors);
        now += interval;
    }
    queue.close();
    while work(&mut queue, &mut successes, &mut errors) {}
    let mut outcomes: Vec<(String, Result<usize, String>)> = Vec::new();
    for (p, t) in successes.into_vec() {
        outcomes.push((p, Ok(t)));
    }
    for (p, e) in errors.into_vec() {
        outcomes.push((p, Err(e)));
    }
    tracker.settle_each(outcomes);
    tracker.into_results()
}

fn sorted_paths<V>(v: &[(String, V)]) -> Vec<String> {
    let mut r: Vec<String> = v.iter().map(|e| e.0.clone()).collect();
    r.sort();
    r
}

#[test]
fn two_files_mature_before_no_new_files_stop() {
    let files = [
        Fake { path: "in/a.csv", appears: 0, modified: Some(0) },
        Fake { path: "in/b.csv", appears: SECOND, modified: Some(SECOND) },
    ];
    let r = run_inline(&files, StopCondition::NoNewFilesSince(10 * SECOND), 5 * SECOND, SECOND);
    assert_eq!(sorted_paths(&r.completed), vec!["in/a.csv".to_string(), "in/b.csv".to_string()]);
    assert!(r.not_processed.is_empty());
    assert!(r.errored.is_empty());
    assert!(r.skipped.is_empty());
    assert_eq!(r.completed[0].1, 8);
}

#[test]
fn unreadable_metadata_is_skipped_once() {
    let files = [
        Fake { path: "in/locked", appears: 0, modified: None },
        Fake { path: "in/ok", appears: 0, modified: Some(0) },
    ];
    let r = run_inline(&files, StopCondition::Elapsed(7 * SECOND), 5 * SECOND, SECOND);
    assert_eq!(r.skipped.len(), 1);
    assert_eq!(r.skipped[0].0, "in/locked");
    assert_eq!(r.skipped[0].1, "permission denied");
    assert!(r.completed.iter().all(|(p, _)| p != "in/locked"));
    assert_eq!(sorted_paths(&r.completed), vec!["in/ok".to_string()]);
}

#[test]
fn once_leaves_fresh_file_unprocessed() {
    let files = [Fake { path: "in/new", appears: 0, modified: Some(0) }];
    let r = run_inline(&files, StopCondition::Once, 5 * SECOND, SECOND);
    assert_eq!(r.not_processed, vec!["in/new".to_string()]);
    assert!(r.completed.is_empty());
}

#[test]
fn report_partitions_every_observed_path() {
    let files = [
        Fake { path: "in/good", appears: 0, modified: Some(0) },
        Fake { path: "in/bad", appears: 0, modified: Some(0) },
        Fake { path: "in/locked", appears: 0, modified: None },
        Fake { path: "in/late", appears: 3 * SECOND, modified: Some(3 * SECOND) },
    ];
    let r = run_inline(&files, StopCondition::Elapsed(5 * SECOND), 5 * SECOND, SECOND);
    assert_eq!(r.completed.len() + r.errored.len() + r.skipped.len() + r.not_processed.len(), 4);
    assert_eq!(sorted_paths(&r.completed), vec!["in/good".to_string()]);
    assert_eq!(sorted_paths(&r.errored), vec!["in/bad".to_string()]);
    assert_eq!(r.errored[0].1, "cannot process in/bad");
    assert_eq!(sorted_paths(&r.skipped), vec!["in/locked".to_string()]);
    assert_eq!(r.not_processed, vec!["in/late".to_string()]);
}

#[test]
fn maturity_needs_the_full_threshold() {
    let mut t: Tracker<u8, u8> = Tracker::new(0);
    assert!(!t.observe_modified("f".to_string(), 10, 10 + 5 * SECOND - 1, 5 * SECOND));
    assert!(t.observe_modified("f".to_string(), 10, 10 + 5 * SECOND, 5 * SECOND));
    // A claimed path is not matured again.
    assert!(!t.observe_modified("f".to_string(), 10, 10 + 9 * SECOND, 5 * SECOND));
    // A modification time after now never matures.
    assert!(!t.observe_modified("g".to_string(), 100, 50, 0));
    let r = t.into_results();
    assert_eq!(r.not_processed, vec!["f".to_string(), "g".to_string()]);
}

#[test]
fn changing_timestamp_delays_maturity() {
    let mut t: Tracker<u8, u8> = Tracker::new(0);
    assert!(!t.observe_modified("f".to_string(), 0, 4, 5));
    assert!(!t.observe_modified("f".to_string(), 3, 7, 5));
    assert!(t.observe_modified("f".to_string(), 3, 8, 5));
    assert_eq!(t.newest(), 3);
}

#[test]
fn failed_deletion_keeps_success() {
    let w = Watcher::new("*.txt", |p: String| -> Result<usize, ()> { Ok(p.len()) }).delete_on_completion(true);
    let mut t: Tracker<usize, ()> = Tracker::new(0);
    assert!(t.observe_modified("x.txt".to_string(), 0, 10, 5));
    let outcome = (w.callback())("x.txt".to_string());
    assert!(w.deletes_after(&outcome));
    // Deleting fails: nothing is told to the tracker but the outcome.
    assert!(t.settle(&"x.txt".to_string(), outcome));
    // The file stays on disk and shows up in a later scan: it stays completed.
    assert!(!t.observe_modified("x.txt".to_string(), 0, 20, 5));
    let r = t.into_results();
    assert_eq!(r.completed, vec![("x.txt".to_string(), 5)]);
    assert!(r.errored.is_empty());
    assert!(!w.deletes_after(&Err::<usize, ()>(())));
}

#[test]
fn files_found_stops_on_first_tick_reaching_count() {
    let files = [
        Fake { path: "in/one", appears: 0, modified: Some(0) },
        Fake { path: "in/two", appears: 0, modified: Some(0) },
        Fake { path: "in/three", appears: 4 * SECOND, modified: Some(4 * SECOND) },
    ];
    let r = run_inline(&files, StopCondition::FilesFound(1), 5 * SECOND, SECOND);
    assert_eq!(r.completed.len(), 2);
    assert_eq!(r.not_processed, vec!["in/three".to_string()]);
    assert!(should_stop(StopCondition::FilesFound(2), 2, 0, 0, 0));
    assert!(!should_stop(StopCondition::FilesFound(3), 2, 0, 0, 0));
}

#[test]
fn inline_and_pooled_agree() {
    let files = [
        Fake { path: "in/a", appears: 0, modified: Some(0) },
        Fake { path: "in/bad1", appears: 0, modified: Some(0) },
        Fake { path: "in/c", appears: SECOND, modified: Some(SECOND) },
        Fake { path: "in/d", appears: 2 * SECOND, modified: Some(2 * SECOND) },
        Fake { path: "in/locked", appears: 0, modified: None },
    ];
    let cond = StopCondition::NoNewFilesSince(8 * SECOND);
    let a = run_inline(&files, cond, 3 * SECOND, SECOND);
    let b = run_pooled(&files, cond, 3 * SECOND, SECOND);
    assert_eq!(sorted_paths(&a.completed), sorted_paths(&b.completed));
    assert_eq!(sorted_paths(&a.errored), sorted_paths(&b.errored));
    assert_eq!(sorted_paths(&a.completed).len(), 3);
    assert_eq!(sorted_paths(&b.errored), vec!["in/bad1".to_string()]);
}

#[test]
fn stop_conditions_decide_as_documented() {
    assert!(should_stop(StopCondition::Once, 0, 0, 0, 0));
    assert!(!should_stop(StopCondition::Elapsed(10), 0, 100, 0, 109));
    assert!(should_stop(StopCondition::Elapsed(10), 0, 100, 0, 110));
    assert!(!should_stop(StopCondition::Elapsed(10), 0, 100, 0, 50));
    assert!(!should_stop(StopCondition::NoNewFilesSince(10), 0, 0, 100, 109));
    assert!(should_stop(StopCondition::NoNewFilesSince(10), 0, 0, 100, 111));
    assert!(!should_stop(StopCondition::NoNewFilesSince(0), 0, 0, 100, 99));
}

#[test]
fn sleep_never_negative() {
    assert_eq!(sleep_after(SECOND, 300), SECOND - 300);
    assert_eq!(sleep_after(SECOND, SECOND), 0);
    assert_eq!(sleep_after(SECOND, 2 * SECOND), 0);
}

#[test]
fn queue_drains_after_close() {
    let mut q = WorkQueue::new();
    assert!(q.is_open());
    assert_eq!(q.pop(), Poll::Idle);
    assert!(q.push("a".to_string()));
    assert!(q.push("b".to_string()));
    q.close();
    assert!(!q.is_open());
    assert!(!q.push("c".to_string()));
    assert_eq!(q.pop(), Poll::Item("a".to_string()));
    assert_eq!(q.pop(), Poll::Item("b".to_string()));
    assert_eq!(q.pop(), Poll::Done);
}

#[test]
fn outcomes_replace_per_path() {
    let mut o: Outcomes<u32> = Outcomes::new();
    o.insert("a".to_string(), 1);
    o.insert("b".to_string(), 2);
    o.insert("a".to_string(), 3);
    assert_eq!(o.len(), 2);
    assert_eq!(o.into_vec(), vec![("a".to_string(), 3), ("b".to_string(), 2)]);
}

#[test]
fn terminal_status_survives_failed_read() {
    let mut t: Tracker<u8, u8> = Tracker::new(0);
    assert!(t.observe_modified("p".to_string(), 0, 10, 1));
    assert!(t.settle(&"p".to_string(), Ok(7)));
    t.observe_failure("p".to_string(), "gone".to_string());
    t.observe_modified("s".to_string(), 0, 0, 10);
    t.observe_failure("s".to_string(), "first".to_string());
    t.observe_failure("s".to_string(), "second".to_string());
    assert_eq!(t.processed_count(), 1);
    let r = t.into_results();
    assert_eq!(r.completed, vec![("p".to_string(), 7)]);
    assert_eq!(r.skipped, vec![("s".to_string(), "first".to_string())]);
}

#[test]
fn settle_takes_only_claimed_paths() {
    let mut t: Tracker<u8, u8> = Tracker::new(0);
    assert!(!t.settle(&"none".to_string(), Ok(1)));
    assert!(!t.observe_modified("seen".to_string(), 5, 6, 10));
    assert!(!t.settle(&"seen".to_string(), Err(2)));
    assert!(t.observe_modified("c".to_string(), 0, 10, 10));
    t.settle_each(vec![("c".to_string(), Err(3)), ("c".to_string(), Ok(4))]);
    let r = t.into_results();
    assert_eq!(r.errored, vec![("c".to_string(), 3)]);
    assert_eq!(r.not_processed, vec!["seen".to_string()]);
    assert!(r.completed.is_empty());
}

#[test]
fn newest_tracks_largest_refreshed_time() {
    let mut t: Tracker<u8, u8> = Tracker::new(50);
    let m = t.observe_all(
        vec![("a".to_string(), Ok(40)), ("b".to_string(), Ok(70)), ("c".to_string(), Err("x".to_string()))],
        100,
        40,
    );
    assert_eq!(m, vec!["a".to_string()]);
    assert_eq!(t.newest(), 70);
}

#[test]
fn watcher_defaults_and_builders() {
    let w = Watcher::new("data/*.csv", |_p: String| -> Result<(), ()> { Ok(()) });
    assert_eq!(w.glob(), "data/*.csv");
    assert_eq!(w.check_interval(), SECOND);
    assert_eq!(w.mature_after(), 5 * SECOND);
    assert!(!w.is_verbose());
    let w = w.check_duration(7).maturation(9).verbose(true).delete_on_completion(true);
    assert_eq!(w.check_interval(), 7);
    assert_eq!(w.mature_after(), 9);
    assert!(w.is_verbose());
    assert!(w.deletes_after(&Ok::<(), ()>(())));
}
