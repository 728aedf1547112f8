use largest_dirs::rank::SizeResult;
use largest_dirs::scan::{Action, Event, Fatal, Phase, Scan};

fn dir(path: &str) -> Event {
    Event::Entry { path: path.to_string(), is_dir: true }
}

fn file(path: &str) -> Event {
    Event::Entry { path: path.to_string(), is_dir: false }
}

fn sized(unit: usize, size: u64) -> Event {
    Event::Sized { unit, size }
}

fn line(position: usize, path: &str, size: &str) -> String {
    format!("{:<2}: {:<40} - {}", position, path, size)
}

/// Feeds `events` to a fresh scan and gives the scan and the last answer.
fn feed(events: Vec<Event>) -> (Scan, Action) {
    let mut scan = Scan::new();
    let mut last = Action::Continue;
    for event in events {
        let (next, action) = scan.step(event);
        scan = next;
        last = action;
    }
    (scan, last)
}

#[test]
fn a_fresh_scan_is_walking() {
    let scan = Scan::new();
    assert_eq!(scan.phase(), Phase::Walking);
    assert_eq!(scan.launched(), 0);
    assert_eq!(scan.collected(), 0);
    assert!(scan.results().is_empty());
}

#[test]
fn a_directory_is_launched() {
    let (scan, action) = Scan::new().step(dir("root"));
    assert_eq!(action, Action::Launch { unit: 0 });
    assert_eq!(scan.launched(), 1);
    let (scan, action) = scan.step(dir("root/a"));
    assert_eq!(action, Action::Launch { unit: 1 });
    assert_eq!(scan.launched(), 2);
    assert_eq!(scan.phase(), Phase::Walking);
}

#[test]
fn a_file_is_passed_over() {
    let (scan, action) = Scan::new().step(file("root/notes.txt"));
    assert_eq!(action, Action::Continue);
    assert_eq!(scan.launched(), 0);
    assert_eq!(scan.phase(), Phase::Walking);
}

#[test]
fn an_unreadable_entry_is_passed_over() {
    let (scan, action) = feed(vec![dir("root"), Event::Unreadable, dir("root/a")]);
    assert_eq!(action, Action::Launch { unit: 1 });
    assert_eq!(scan.launched(), 2);
    assert_eq!(scan.phase(), Phase::Walking);
}

#[test]
fn results_are_kept_in_the_order_of_arrival() {
    let (scan, action) = feed(vec![
        dir("root"),
        dir("root/a"),
        sized(1, 500),
        dir("root/b"),
        sized(2, 7),
        sized(0, 507),
    ]);
    assert_eq!(action, Action::Continue);
    assert_eq!(scan.collected(), 3);
    assert_eq!(
        scan.results(),
        vec![
            SizeResult::new("root/a".to_string(), 500),
            SizeResult::new("root/b".to_string(), 7),
            SizeResult::new("root".to_string(), 507),
        ]
    );
}

#[test]
fn the_end_of_the_walk_starts_the_draining() {
    let (scan, action) = feed(vec![dir("root"), Event::WalkEnded]);
    assert_eq!(action, Action::Continue);
    assert_eq!(scan.phase(), Phase::Draining);
    let (scan, action) = scan.step(sized(0, 12));
    assert_eq!(action, Action::Continue);
    assert_eq!(scan.phase(), Phase::Draining);
    assert_eq!(scan.collected(), 1);
}

#[test]
fn three_subdirectories_are_ranked_with_their_root() {
    let (scan, action) = feed(vec![
        dir("root"),
        dir("root/a"),
        file("root/a/one.bin"),
        dir("root/b"),
        file("root/b/two.bin"),
        dir("root/c"),
        Event::WalkEnded,
        sized(3, 0),
        sized(1, 500),
        sized(0, 2097652),
        sized(2, 2097152),
        Event::Closed,
    ]);
    assert_eq!(scan.phase(), Phase::Done);
    assert_eq!(
        action,
        Action::Report(vec![
            line(1, "root", "2.000 MB"),
            line(2, "root/b", "2.000 MB"),
            line(3, "root/a", "500.000 B"),
            line(4, "root/c", "0.000 B"),
        ])
    );
}

#[test]
fn a_lone_empty_root_is_reported_alone() {
    let (scan, action) = feed(vec![dir("root"), Event::WalkEnded, sized(0, 0), Event::Closed]);
    assert_eq!(scan.phase(), Phase::Done);
    assert_eq!(action, Action::Report(vec![line(1, "root", "0.000 B")]));
}

#[test]
fn a_walk_that_yields_nothing_reports_nothing() {
    let (scan, action) = feed(vec![Event::Unreadable, Event::WalkEnded, Event::Closed]);
    assert_eq!(scan.phase(), Phase::Done);
    assert_eq!(action, Action::Report(Vec::new()));
}

#[test]
fn fewer_directories_than_the_limit_are_all_reported() {
    let (_, action) = feed(vec![
        dir("r"),
        dir("r/x"),
        dir("r/y"),
        sized(0, 30),
        sized(1, 10),
        sized(2, 20),
        Event::WalkEnded,
        Event::Closed,
    ]);
    assert_eq!(
        action,
        Action::Report(vec![
            line(1, "r", "30.000 B"),
            line(2, "r/y", "20.000 B"),
            line(3, "r/x", "10.000 B"),
        ])
    );
}

#[test]
fn only_the_ten_largest_are_reported() {
    let mut events: Vec<Event> = Vec::new();
    let mut i: usize = 0;
    while i < 15 {
        events.push(dir(&format!("d{}", i)));
        i += 1;
    }
    events.push(Event::WalkEnded);
    let mut unit: usize = 0;
    while unit < 15 {
        events.push(Event::Sized { unit, size: 100 + u64::try_from(unit).unwrap() });
        unit += 1;
    }
    events.push(Event::Closed);
    let (scan, action) = feed(events);
    assert_eq!(scan.phase(), Phase::Done);
    let mut expected: Vec<String> = Vec::new();
    let mut k: usize = 0;
    while k < 10 {
        expected.push(line(k + 1, &format!("d{}", 14 - k), &format!("{}.000 B", 114 - k)));
        k += 1;
    }
    assert_eq!(action, Action::Report(expected));
}

#[test]
fn directories_of_one_size_are_reported_in_the_order_of_arrival() {
    let (_, action) = feed(vec![
        dir("r"),
        dir("r/a"),
        dir("r/c"),
        Event::WalkEnded,
        sized(2, 0),
        sized(0, 0),
        sized(1, 0),
        Event::Closed,
    ]);
    assert_eq!(
        action,
        Action::Report(vec![
            line(1, "r/c", "0.000 B"),
            line(2, "r", "0.000 B"),
            line(3, "r/a", "0.000 B"),
        ])
    );
}

#[test]
fn a_failed_size_computation_is_fatal() {
    let (scan, action) = feed(vec![
        dir("root"),
        dir("root/a"),
        sized(1, 5),
        Event::Failed(Fatal::SizeComputation),
    ]);
    assert_eq!(action, Action::Abort(Fatal::SizeComputation));
    assert_eq!(scan.phase(), Phase::Failed(Fatal::SizeComputation));
}

#[test]
fn a_failed_send_is_fatal() {
    let (scan, action) = feed(vec![dir("root"), Event::WalkEnded, Event::Failed(Fatal::Channel)]);
    assert_eq!(action, Action::Abort(Fatal::Channel));
    assert_eq!(scan.phase(), Phase::Failed(Fatal::Channel));
}

#[test]
fn a_failed_join_is_fatal() {
    let (scan, action) = feed(vec![dir("root"), Event::Failed(Fatal::UnitJoin)]);
    assert_eq!(action, Action::Abort(Fatal::UnitJoin));
    assert_eq!(scan.phase(), Phase::Failed(Fatal::UnitJoin));
}

#[test]
fn a_missing_result_at_the_close_is_fatal() {
    let (scan, action) = feed(vec![
        dir("root"),
        dir("root/a"),
        Event::WalkEnded,
        sized(0, 9),
        Event::Closed,
    ]);
    assert_eq!(action, Action::Abort(Fatal::UnitJoin));
    assert_eq!(scan.phase(), Phase::Failed(Fatal::UnitJoin));
}

#[test]
fn a_failure_is_final() {
    let (scan, _) = feed(vec![dir("root"), Event::Failed(Fatal::SizeComputation)]);
    let (scan, action) = scan.step(sized(0, 1));
    assert_eq!(action, Action::Abort(Fatal::SizeComputation));
    assert_eq!(scan.collected(), 0);
    let (scan, action) = scan.step(Event::WalkEnded);
    assert_eq!(action, Action::Abort(Fatal::SizeComputation));
    let (scan, action) = scan.step(Event::Closed);
    assert_eq!(action, Action::Abort(Fatal::SizeComputation));
    let (scan, action) = scan.step(Event::Failed(Fatal::Channel));
    assert_eq!(action, Action::Abort(Fatal::SizeComputation));
    assert_eq!(scan.phase(), Phase::Failed(Fatal::SizeComputation));
}

#[test]
fn a_result_of_an_unknown_unit_is_fatal() {
    let (scan, action) = feed(vec![dir("root"), sized(1, 5)]);
    assert_eq!(action, Action::Abort(Fatal::Protocol));
    assert_eq!(scan.phase(), Phase::Failed(Fatal::Protocol));
    assert_eq!(scan.collected(), 0);
}

#[test]
fn a_second_result_of_one_unit_is_fatal() {
    let (scan, action) = feed(vec![dir("root"), dir("root/a"), sized(0, 5), sized(0, 5)]);
    assert_eq!(action, Action::Abort(Fatal::Protocol));
    assert_eq!(scan.phase(), Phase::Failed(Fatal::Protocol));
    assert_eq!(scan.collected(), 1);
}

#[test]
fn an_entry_after_the_walk_is_fatal() {
    let (scan, action) = feed(vec![dir("root"), Event::WalkEnded, dir("late")]);
    assert_eq!(action, Action::Abort(Fatal::Protocol));
    assert_eq!(scan.phase(), Phase::Failed(Fatal::Protocol));
    assert_eq!(scan.launched(), 1);
    let (_, action) = feed(vec![Event::WalkEnded, file("late")]);
    assert_eq!(action, Action::Abort(Fatal::Protocol));
    let (_, action) = feed(vec![Event::WalkEnded, Event::Unreadable]);
    assert_eq!(action, Action::Abort(Fatal::Protocol));
    let (_, action) = feed(vec![Event::WalkEnded, Event::WalkEnded]);
    assert_eq!(action, Action::Abort(Fatal::Protocol));
}

#[test]
fn a_close_before_the_walk_has_ended_is_fatal() {
    let (scan, action) = feed(vec![dir("root"), sized(0, 1), Event::Closed]);
    assert_eq!(action, Action::Abort(Fatal::Protocol));
    assert_eq!(scan.phase(), Phase::Failed(Fatal::Protocol));
}

#[test]
fn an_event_after_the_report_is_fatal() {
    let (scan, action) = feed(vec![dir("root"), Event::WalkEnded, sized(0, 1), Event::Closed]);
    assert_eq!(action, Action::Report(vec![line(1, "root", "1.000 B")]));
    let (scan, action) = scan.step(Event::Closed);
    assert_eq!(action, Action::Abort(Fatal::Protocol));
    assert_eq!(scan.phase(), Phase::Failed(Fatal::Protocol));
}

#[test]
fn the_same_events_give_the_same_report() {
    let events = || {
        vec![
            dir("t"),
            dir("t/a"),
            dir("t/b"),
            dir("t/c"),
            Event::WalkEnded,
            sized(1, 4096),
            sized(3, 4096),
            sized(0, 12288),
            sized(2, 4096),
            Event::Closed,
        ]
    };
    let (_, first) = feed(events());
    let (_, second) = feed(events());
    assert_eq!(first, second);
    assert_eq!(
        first,
        Action::Report(vec![
            line(1, "t", "12.000 kB"),
            line(2, "t/a", "4.000 kB"),
            line(3, "t/c", "4.000 kB"),
            line(4, "t/b", "4.000 kB"),
        ])
    );
}

#[test]
fn arrival_order_among_different_sizes_does_not_show() {
    let walk = || vec![dir("t"), dir("t/a"), dir("t/b"), Event::WalkEnded];
    let mut one = walk();
    one.extend(vec![sized(0, 30), sized(1, 10), sized(2, 20), Event::Closed]);
    let mut other = walk();
    other.extend(vec![sized(2, 20), sized(1, 10), sized(0, 30), Event::Closed]);
    let (_, first) = feed(one);
    let (_, second) = feed(other);
    assert_eq!(first, second);
}

#[test]
fn a_large_tree_is_scanned() {
    let mut scan = Scan::new();
    let count: usize = 20000;
    let mut i: usize = 0;
    while i < count {
        let (next, action) = scan.step(dir(&format!("big/{}", i)));
        assert_eq!(action, Action::Launch { unit: i });
        let (next, action) = next.step(file(&format!("big/{}/data", i)));
        assert_eq!(action, Action::Continue);
        scan = next;
        i += 1;
    }
    let (next, _) = scan.step(Event::WalkEnded);
    scan = next;
    let mut unit: usize = count;
    while unit > 0 {
        unit -= 1;
        let size = u64::try_from(unit).unwrap() * 1024;
        let (next, action) = scan.step(Event::Sized { unit, size });
        assert_eq!(action, Action::Continue);
        scan = next;
    }
    assert_eq!(scan.launched(), count);
    assert_eq!(scan.collected(), count);
    let (scan, action) = scan.step(Event::Closed);
    assert_eq!(scan.phase(), Phase::Done);
    let mut expected: Vec<String> = Vec::new();
    let mut k: usize = 0;
    while k < 10 {
        let unit = count - 1 - k;
        expected.push(format!(
            "{:<2}: {:<40} - {}",
            k + 1,
            format!("big/{}", unit),
            largest_dirs::size::format_size(u64::try_from(unit).unwrap() * 1024)
        ));
        k += 1;
    }
    assert_eq!(action, Action::Report(expected));
}
