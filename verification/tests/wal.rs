use map_reduce_rs::mr::coordinator::Coordinator;
use map_reduce_rs::mr::job::{Phase, TaskKind, TaskState};
use map_reduce_rs::mr::text::join;
use map_reduce_rs::mr::wal::{parse_flag, parse_number, read_wal, same_text};

fn prepared(map_n: i32, reduce_n: i32, worker_n: i32) -> Coordinator {
    let mut c = Coordinator::new(map_n, reduce_n, worker_n);
    for _ in 0..worker_n {
        c.register_worker().unwrap();
    }
    c
}

#[test]
fn log_of_a_new_job() {
    let c = Coordinator::new(2, 2, 1);
    assert_eq!(c.serialize(), "BEGIN\n0\n0\n0\n0\nfalse\nfalse\n0\n0\nEND\n");
}

#[test]
fn log_in_the_map_phase() {
    let mut c = prepared(3, 2, 1);
    assert_eq!(c.request_map_task(0), 0);
    assert_eq!(c.request_map_task(0), 1);
    assert_eq!(c.report_map_complete(0), Ok(true));
    assert_eq!(
        c.serialize(),
        "BEGIN\n2\n0 true\n1 false\n2\n0\n0\nfalse\nfalse\n1\n1\n0\nEND\n"
    );
}

#[test]
fn log_in_the_reduce_phase_and_when_finished() {
    let mut c = prepared(1, 2, 1);
    assert_eq!(c.request_map_task(0), 0);
    assert_eq!(c.report_map_complete(0), Ok(true));
    assert_eq!(c.request_reduce_task(0), 0);
    assert_eq!(c.request_reduce_task(0), 1);
    assert_eq!(
        c.serialize(),
        "BEGIN\n1\n0 true\n1\n2\n0 false\n1 false\n2\ntrue\nfalse\n0\n2\n0\n1\nEND\n"
    );
    assert_eq!(c.report_reduce_complete(1), Ok(true));
    assert_eq!(c.report_reduce_complete(0), Ok(true));
    assert_eq!(
        c.serialize(),
        "BEGIN\n1\n0 true\n1\n2\n0 true\n1 true\n2\ntrue\ntrue\n0\n0\nEND\n"
    );
}

#[test]
fn restart_takes_the_job_up_without_its_leases() {
    let mut c = prepared(3, 2, 1);
    assert_eq!(c.request_map_task(0), 0);
    assert_eq!(c.request_map_task(0), 1);
    assert_eq!(c.report_map_complete(0), Ok(true));
    let log = c.serialize();

    let mut again = Coordinator::new(3, 2, 1);
    assert!(again.recover(&log));
    assert_eq!(again.phase(), Phase::MapRunning);
    assert_eq!(again.task_state(TaskKind::MapTask, 0), Some(TaskState::Done));
    assert_eq!(again.task_state(TaskKind::MapTask, 1), Some(TaskState::Pending));
    assert_eq!(again.task_state(TaskKind::MapTask, 2), None);
    assert!(!again.prepare());
    assert_eq!(again.register_worker(), Ok(0));
    // A fresh id first, then the task whose lease was lost.
    assert_eq!(again.request_map_task(0), 2);
    assert_eq!(again.request_map_task(0), 1);
    // What it writes now reads back as the same job.
    assert_eq!(again.report_map_complete(1), Ok(true));
    assert_eq!(again.report_map_complete(2), Ok(true));
    let log = again.serialize();
    let mut third = Coordinator::new(3, 2, 1);
    assert!(third.recover(&log));
    assert_eq!(third.phase(), Phase::ReduceRunning);
    assert_eq!(third.serialize(), log);
}

#[test]
fn restart_of_a_finished_job() {
    let mut c = prepared(1, 1, 1);
    assert_eq!(c.request_map_task(0), 0);
    assert_eq!(c.report_map_complete(0), Ok(true));
    assert_eq!(c.request_reduce_task(0), 0);
    assert_eq!(c.report_reduce_complete(0), Ok(true));
    let log = c.serialize();
    let mut again = Coordinator::new(1, 1, 1);
    assert!(again.recover(&log));
    assert!(again.done());
    assert_eq!(again.serialize(), log);
}

#[test]
fn recover_refuses_what_is_no_log() {
    let mut c = Coordinator::new(2, 2, 1);
    let before = c.serialize();
    for text in [
        "",
        "BEGIN\n",
        "BEGIN\n0\n0\n0\n0\nfalse\nfalse\n0\n0\n",
        "0\n0\n0\n0\nfalse\nfalse\n0\n0\nEND\n",
        "BEGIN\n0\n0\n0\n0\nfalse\nfalse\n0\n0\nEND\nEND\n",
        "BEGIN\n1\n1 true\n1\n0\n0\nfalse\nfalse\n0\n0\nEND\n",
        "BEGIN\n1\n0 yes\n1\n0\n0\nfalse\nfalse\n0\n0\nEND\n",
        "BEGIN\n1\n0 true\n2\n0\n0\nfalse\nfalse\n0\n0\nEND\n",
        "BEGIN\n0\n0\n0\n0\nfalse\nfalse\n1\n0\nEND\n",
        "BEGIN\n0\n0\n0\n0\nfalse\nfalse\n0\nx\nEND\n",
        "BEGIN\n-1\n0\n0\n0\nfalse\nfalse\n0\n0\nEND\n",
        "BEGIN\n99999999999\n0\n0\n0\nfalse\nfalse\n0\n0\nEND\n",
    ] {
        assert!(!c.recover(text), "{:?}", text);
        assert_eq!(c.serialize(), before);
    }
}

#[test]
fn recover_refuses_a_log_that_does_not_fit_the_job() {
    let mut c = Coordinator::new(1, 1, 1);
    // More map tasks than the job has.
    assert!(!c.recover("BEGIN\n2\n0 true\n1 true\n2\n0\n0\nfalse\nfalse\n0\n0\nEND\n"));
    // The map phase over with a task that is not done.
    assert!(!c.recover("BEGIN\n1\n0 false\n1\n0\n0\ntrue\nfalse\n0\n0\nEND\n"));
    // Reduce tasks in the map phase.
    assert!(!c.recover("BEGIN\n1\n0 true\n1\n1\n0 false\n1\nfalse\nfalse\n0\n0\nEND\n"));
    // The job finished before its map phase.
    assert!(!c.recover("BEGIN\n0\n0\n0\n0\nfalse\ntrue\n0\n0\nEND\n"));
    // The job finished with a reduce task that is not done.
    assert!(!c.recover("BEGIN\n1\n0 true\n1\n1\n0 false\n1\ntrue\ntrue\n0\n0\nEND\n"));
    assert_eq!(c.phase(), Phase::MapRunning);
    assert_eq!(c.task_state(TaskKind::MapTask, 0), None);
    assert!(c.recover("BEGIN\n1\n0 true\n1\n1\n0 false\n1\ntrue\nfalse\n0\n1\n0\nEND\n"));
    assert_eq!(c.phase(), Phase::ReduceRunning);
    assert_eq!(c.task_state(TaskKind::ReduceTask, 0), Some(TaskState::Pending));
}

#[test]
fn recover_passes_over_empty_lines() {
    let mut c = Coordinator::new(1, 1, 1);
    assert!(c.recover("\nBEGIN\n\n1\n0 false\n1\n0\n0\nfalse\nfalse\n\n1\n0\n0\nEND"));
    assert_eq!(c.task_state(TaskKind::MapTask, 0), Some(TaskState::Pending));
}

#[test]
fn read_wal_gives_the_flags_of_the_tasks() {
    let record =
        read_wal("BEGIN\n2\n0 true\n1 false\n2\n0\n0\nfalse\nfalse\n1\n1\n0\nEND\n").unwrap();
    assert_eq!(record.map_done, vec![true, false]);
    assert_eq!(record.reduce_done, Vec::<bool>::new());
    assert!(!record.map_finish);
    assert!(!record.reduce_finish);
}

#[test]
fn numbers_and_flags() {
    assert_eq!(parse_number("0"), Some(0));
    assert_eq!(parse_number("007"), Some(7));
    assert_eq!(parse_number("2147483647"), Some(i32::MAX));
    assert_eq!(parse_number("2147483648"), None);
    assert_eq!(parse_number("99999999999999999999999"), None);
    assert_eq!(parse_number(""), None);
    assert_eq!(parse_number("-1"), None);
    assert_eq!(parse_number("1a"), None);
    assert_eq!(parse_number("+1"), None);
    assert_eq!(parse_flag("true"), Some(true));
    assert_eq!(parse_flag("false"), Some(false));
    assert_eq!(parse_flag("True"), None);
    assert_eq!(parse_flag(""), None);
    assert!(same_text("abc", "abc"));
    assert!(!same_text("abc", "abd"));
    assert!(!same_text("abc", "ab"));
}

#[test]
fn join_ends_each_line() {
    assert_eq!(join(&vec![]), "");
    assert_eq!(join(&vec!["a".to_string(), "b c".to_string()]), "a\nb c\n");
}
