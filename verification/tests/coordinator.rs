use map_reduce_rs::mr::coordinator::{Coordinator, Driver, Server};
use map_reduce_rs::mr::job::{
    CoordinatorError, Phase, TaskKind, TaskState, LEASE_DURATION, NOT_READY, PHASE_DONE,
    WAIT_RETRY,
};

fn prepared(map_n: i32, reduce_n: i32, worker_n: i32) -> Coordinator {
    let mut c = Coordinator::new(map_n, reduce_n, worker_n);
    for id in 0..worker_n {
        assert_eq!(c.register_worker(), Ok(id));
    }
    c
}

#[test]
fn reply_codes_have_their_wire_values() {
    assert_eq!(PHASE_DONE, -1);
    assert_eq!(NOT_READY, -2);
    assert_eq!(WAIT_RETRY, -3);
    assert_eq!(LEASE_DURATION, 5000);
}

#[test]
fn new_coordinator_is_not_prepared_and_not_done() {
    let c = Coordinator::new(2, 2, 1);
    assert!(!c.prepare());
    assert!(!c.done());
    assert_eq!(c.phase(), Phase::MapRunning);
    assert_eq!(c.task_state(TaskKind::MapTask, 0), None);
    assert_eq!(c.task_state(TaskKind::ReduceTask, 0), None);
}

#[test]
fn workers_get_ids_in_order_until_capacity() {
    let mut c = Coordinator::new(1, 1, 3);
    assert_eq!(c.register_worker(), Ok(0));
    assert_eq!(c.register_worker(), Ok(1));
    assert!(!c.prepare());
    assert_eq!(c.register_worker(), Ok(2));
    assert!(c.prepare());
    assert_eq!(c.register_worker(), Err(CoordinatorError::CapacityExceeded));
    assert_eq!(c.register_worker(), Err(CoordinatorError::CapacityExceeded));
    assert!(c.prepare());
}

#[test]
fn happy_path_single_worker_walks_both_phases() {
    let mut c = prepared(2, 2, 1);
    assert_eq!(c.request_map_task(10), 0);
    assert_eq!(c.task_state(TaskKind::MapTask, 0), Some(TaskState::InFlight { leased_at: 10 }));
    assert_eq!(c.report_map_complete(0), Ok(true));
    assert_eq!(c.task_state(TaskKind::MapTask, 0), Some(TaskState::Done));
    assert_eq!(c.phase(), Phase::MapRunning);
    assert_eq!(c.request_map_task(20), 1);
    assert_eq!(c.report_map_complete(1), Ok(true));
    assert_eq!(c.phase(), Phase::ReduceRunning);
    assert_eq!(c.request_map_task(30), PHASE_DONE);
    assert_eq!(c.request_reduce_task(40), 0);
    assert_eq!(c.report_reduce_complete(0), Ok(true));
    assert_eq!(c.request_reduce_task(50), 1);
    assert!(!c.done());
    assert_eq!(c.report_reduce_complete(1), Ok(true));
    assert!(c.done());
    assert_eq!(c.phase(), Phase::Finished);
    assert_eq!(c.request_reduce_task(60), PHASE_DONE);
    assert_eq!(c.request_map_task(60), PHASE_DONE);
}

#[test]
fn crashed_worker_task_is_reclaimed_and_redispatched() {
    let mut c = prepared(2, 2, 1);
    assert_eq!(c.request_map_task(0), 0);
    // The worker dies here. Before the deadline nothing is taken back.
    c.sweep(LEASE_DURATION);
    assert_eq!(c.task_state(TaskKind::MapTask, 0), Some(TaskState::InFlight { leased_at: 0 }));
    c.sweep(LEASE_DURATION + 1);
    assert_eq!(c.task_state(TaskKind::MapTask, 0), Some(TaskState::Pending));
    // Its replacement cannot take a new identity, but is served.
    assert_eq!(c.register_worker(), Err(CoordinatorError::CapacityExceeded));
    // A fresh id goes before a reclaimed one.
    assert_eq!(c.request_map_task(6000), 1);
    assert_eq!(c.request_map_task(6001), 0);
    assert_eq!(c.task_state(TaskKind::MapTask, 0), Some(TaskState::InFlight { leased_at: 6001 }));
    assert_eq!(c.report_map_complete(1), Ok(true));
    assert_eq!(c.phase(), Phase::MapRunning);
    assert_eq!(c.report_map_complete(0), Ok(true));
    assert_eq!(c.phase(), Phase::ReduceRunning);
    assert_eq!(c.request_reduce_task(7000), 0);
    assert_eq!(c.request_reduce_task(7000), 1);
    assert_eq!(c.report_reduce_complete(0), Ok(true));
    assert_eq!(c.report_reduce_complete(1), Ok(true));
    assert!(c.done());
}

#[test]
fn no_task_is_handed_out_before_all_workers_registered() {
    let mut c = Coordinator::new(2, 2, 2);
    assert_eq!(c.register_worker(), Ok(0));
    for now in 0..5 {
        assert_eq!(c.request_map_task(now), NOT_READY);
        assert_eq!(c.request_reduce_task(now), NOT_READY);
        assert!(!c.done());
    }
    assert_eq!(c.task_state(TaskKind::MapTask, 0), None);
    assert_eq!(c.register_worker(), Ok(1));
    assert_eq!(c.request_map_task(5), 0);
}

#[test]
fn reduce_request_waits_for_the_last_map_report() {
    let mut c = prepared(2, 2, 2);
    assert_eq!(c.request_map_task(0), 0);
    assert_eq!(c.request_map_task(0), 1);
    assert_eq!(c.report_map_complete(0), Ok(true));
    assert_eq!(c.request_reduce_task(1), NOT_READY);
    assert_eq!(c.phase(), Phase::MapRunning);
    assert_eq!(c.report_map_complete(1), Ok(true));
    let id = c.request_reduce_task(2);
    assert!(id >= 0);
    assert_eq!(id, 0);
}

#[test]
fn exhausted_phase_with_outstanding_lease_says_wait() {
    let mut c = prepared(2, 1, 2);
    assert_eq!(c.request_map_task(0), 0);
    assert_eq!(c.request_map_task(0), 1);
    assert_eq!(c.report_map_complete(0), Ok(true));
    assert_eq!(c.request_map_task(1), WAIT_RETRY);
    assert_eq!(c.request_map_task(2), WAIT_RETRY);
    assert_eq!(c.report_map_complete(1), Ok(true));
    assert_eq!(c.request_map_task(3), PHASE_DONE);
    assert_eq!(c.request_reduce_task(3), 0);
    assert_eq!(c.request_reduce_task(3), WAIT_RETRY);
    assert_eq!(c.report_reduce_complete(0), Ok(true));
    assert_eq!(c.request_reduce_task(4), PHASE_DONE);
}

#[test]
fn lowest_reclaimed_id_is_dispatched_first() {
    let mut c = prepared(3, 1, 1);
    assert_eq!(c.request_map_task(0), 0);
    assert_eq!(c.request_map_task(0), 1);
    assert_eq!(c.request_map_task(0), 2);
    assert_eq!(c.report_map_complete(0), Ok(true));
    c.sweep(10_000);
    assert_eq!(c.task_state(TaskKind::MapTask, 0), Some(TaskState::Done));
    assert_eq!(c.task_state(TaskKind::MapTask, 1), Some(TaskState::Pending));
    assert_eq!(c.task_state(TaskKind::MapTask, 2), Some(TaskState::Pending));
    assert_eq!(c.request_map_task(10_000), 1);
    assert_eq!(c.request_map_task(10_001), 2);
    assert_eq!(c.request_map_task(10_002), WAIT_RETRY);
}

#[test]
fn report_without_lease_is_refused_and_changes_nothing() {
    let mut c = prepared(2, 2, 1);
    assert_eq!(c.report_map_complete(0), Err(CoordinatorError::InvariantViolation));
    assert_eq!(c.report_map_complete(-1), Err(CoordinatorError::InvariantViolation));
    assert_eq!(c.report_reduce_complete(0), Err(CoordinatorError::InvariantViolation));
    assert_eq!(c.request_map_task(0), 0);
    assert_eq!(c.report_map_complete(1), Err(CoordinatorError::InvariantViolation));
    assert_eq!(c.report_map_complete(0), Ok(true));
    // A second report for a task that is done is an error.
    assert_eq!(c.report_map_complete(0), Err(CoordinatorError::InvariantViolation));
    assert_eq!(c.task_state(TaskKind::MapTask, 0), Some(TaskState::Done));
    // So is the report of a worker whose lease was taken back.
    assert_eq!(c.request_map_task(0), 1);
    c.sweep(5001);
    assert_eq!(c.report_map_complete(1), Err(CoordinatorError::InvariantViolation));
    assert_eq!(c.task_state(TaskKind::MapTask, 1), Some(TaskState::Pending));
    assert_eq!(c.phase(), Phase::MapRunning);
}

#[test]
fn renewal_moves_the_deadline() {
    let mut c = prepared(1, 1, 1);
    assert_eq!(c.request_map_task(0), 0);
    assert_eq!(c.renew_lease(TaskKind::MapTask, 0, 4000), Ok(true));
    assert_eq!(c.task_state(TaskKind::MapTask, 0), Some(TaskState::InFlight { leased_at: 4000 }));
    c.sweep(9000);
    assert_eq!(c.task_state(TaskKind::MapTask, 0), Some(TaskState::InFlight { leased_at: 4000 }));
    c.sweep(9001);
    assert_eq!(c.task_state(TaskKind::MapTask, 0), Some(TaskState::Pending));
    // The lease is gone: the worker is told to give the task up.
    assert_eq!(c.renew_lease(TaskKind::MapTask, 0, 9002), Ok(false));
    assert_eq!(c.task_state(TaskKind::MapTask, 0), Some(TaskState::Pending));
    // A task that was never dispatched cannot be renewed.
    assert_eq!(c.renew_lease(TaskKind::MapTask, 1, 0), Err(CoordinatorError::InvariantViolation));
    assert_eq!(c.renew_lease(TaskKind::MapTask, -1, 0), Err(CoordinatorError::InvariantViolation));
    assert_eq!(c.renew_lease(TaskKind::ReduceTask, 0, 0), Err(CoordinatorError::InvariantViolation));
}

#[test]
fn renewal_of_a_reduce_lease() {
    let mut c = prepared(1, 2, 1);
    assert_eq!(c.request_map_task(0), 0);
    assert_eq!(c.report_map_complete(0), Ok(true));
    assert_eq!(c.request_reduce_task(100), 0);
    assert_eq!(c.renew_lease(TaskKind::ReduceTask, 0, 200), Ok(true));
    assert_eq!(
        c.task_state(TaskKind::ReduceTask, 0),
        Some(TaskState::InFlight { leased_at: 200 })
    );
    assert_eq!(c.report_reduce_complete(0), Ok(true));
    assert_eq!(c.renew_lease(TaskKind::ReduceTask, 0, 300), Ok(false));
}

#[test]
fn sweep_acts_on_the_running_phase_only() {
    let mut c = prepared(1, 2, 1);
    assert_eq!(c.request_map_task(0), 0);
    assert_eq!(c.report_map_complete(0), Ok(true));
    assert_eq!(c.request_reduce_task(0), 0);
    assert_eq!(c.request_reduce_task(3000), 1);
    c.sweep(5001);
    assert_eq!(c.task_state(TaskKind::MapTask, 0), Some(TaskState::Done));
    assert_eq!(c.task_state(TaskKind::ReduceTask, 0), Some(TaskState::Pending));
    assert_eq!(
        c.task_state(TaskKind::ReduceTask, 1),
        Some(TaskState::InFlight { leased_at: 3000 })
    );
    assert_eq!(c.request_reduce_task(5002), 0);
    assert_eq!(c.report_reduce_complete(0), Ok(true));
    assert_eq!(c.report_reduce_complete(1), Ok(true));
    assert!(c.done());
    c.sweep(u64::MAX);
    assert!(c.done());
    assert_eq!(c.task_state(TaskKind::ReduceTask, 1), Some(TaskState::Done));
}

#[test]
fn lease_at_the_end_of_time_does_not_overflow() {
    let mut c = prepared(1, 1, 1);
    assert_eq!(c.request_map_task(u64::MAX), 0);
    c.sweep(u64::MAX);
    assert_eq!(
        c.task_state(TaskKind::MapTask, 0),
        Some(TaskState::InFlight { leased_at: u64::MAX })
    );
    c.sweep(0);
    assert_eq!(
        c.task_state(TaskKind::MapTask, 0),
        Some(TaskState::InFlight { leased_at: u64::MAX })
    );
}

#[test]
fn lease_duration_can_be_set() {
    let mut c = Coordinator::new(1, 1, 1).with_lease_duration(10);
    assert_eq!(c.register_worker(), Ok(0));
    assert_eq!(c.request_map_task(100), 0);
    c.sweep(110);
    assert_eq!(c.task_state(TaskKind::MapTask, 0), Some(TaskState::InFlight { leased_at: 100 }));
    c.sweep(111);
    assert_eq!(c.task_state(TaskKind::MapTask, 0), Some(TaskState::Pending));
}

#[test]
fn done_tasks_stay_done_and_counters_never_fall() {
    let mut c = prepared(3, 2, 1);
    let mut dispatched = 0;
    let mut done = 0;
    for step in 0..40u64 {
        let now = step * 3000;
        let code = c.request_map_task(now);
        if code >= 0 && step % 4 != 0 {
            assert_eq!(c.report_map_complete(code), Ok(true));
        }
        c.sweep(now);
        let mut d = 0;
        let mut n = 0;
        for id in 0..3 {
            match c.task_state(TaskKind::MapTask, id) {
                Some(TaskState::Done) => {
                    d += 1;
                    n += 1;
                }
                Some(_) => n += 1,
                None => {}
            }
        }
        assert!(n >= dispatched);
        assert!(d >= done);
        dispatched = n;
        done = d;
    }
    assert_eq!(done, 3);
    assert_eq!(c.phase(), Phase::ReduceRunning);
}

#[test]
fn server_operations_run_at_the_time_of_the_call() {
    let mut c = Coordinator::new(1, 1, 1);
    assert_eq!(c.get_map_task(), NOT_READY);
    assert_eq!(c.get_worker_id(), Ok(0));
    assert_eq!(c.get_worker_id(), Err(CoordinatorError::CapacityExceeded));
    assert_eq!(c.get_reduce_task(), NOT_READY);
    assert_eq!(c.get_map_task(), 0);
    assert_eq!(c.renew_map_lease(0), Ok(true));
    assert_eq!(c.renew_map_lease(1), Err(CoordinatorError::InvariantViolation));
    // The lease was granted a moment ago: the sweep leaves it.
    assert!(c.check_lease());
    match c.task_state(TaskKind::MapTask, 0) {
        Some(TaskState::InFlight { leased_at }) => assert!(leased_at <= c.now()),
        other => panic!("unexpected state {:?}", other),
    }
    assert_eq!(c.report_map_task_finish(0), Ok(true));
    assert_eq!(c.get_map_task(), PHASE_DONE);
    assert_eq!(c.get_reduce_task(), 0);
    assert_eq!(c.renew_reduce_lease(0), Ok(true));
    assert_eq!(c.report_reduce_task_finish(1), Err(CoordinatorError::InvariantViolation));
    assert_eq!(c.report_reduce_task_finish(0), Ok(true));
    assert!(c.done());
    assert!(c.check_lease());
    assert_eq!(c.get_reduce_task(), PHASE_DONE);
}

#[test]
fn clock_does_not_run_backwards() {
    let c = Coordinator::new(1, 1, 1);
    let a = c.now();
    let b = c.now();
    assert!(a <= b);
    assert!(b < 60_000);
}

#[test]
fn a_leased_task_is_not_handed_out_again() {
    let mut c = prepared(4, 1, 3);
    let mut held = Vec::new();
    for now in 0..10 {
        let code = c.request_map_task(now);
        if code >= 0 {
            assert!(!held.contains(&code));
            assert_eq!(
                c.task_state(TaskKind::MapTask, code),
                Some(TaskState::InFlight { leased_at: now })
            );
            held.push(code);
        } else {
            assert_eq!(code, WAIT_RETRY);
        }
    }
    assert_eq!(held, vec![0, 1, 2, 3]);
    // A lease that a sweep took back is given once more, and once only.
    c.sweep(5002);
    assert_eq!(c.task_state(TaskKind::MapTask, 0), Some(TaskState::Pending));
    assert_eq!(c.task_state(TaskKind::MapTask, 1), Some(TaskState::Pending));
    assert_eq!(c.task_state(TaskKind::MapTask, 2), Some(TaskState::InFlight { leased_at: 2 }));
    assert_eq!(c.request_map_task(5003), 0);
    assert_eq!(c.request_map_task(5003), 1);
    assert_eq!(c.request_map_task(5003), WAIT_RETRY);
}

#[test]
fn driver_sweeps_when_the_interval_has_passed() {
    let mut c = prepared(1, 1, 1);
    let mut d = Driver::new();
    assert!(!d.after_pause(&mut c, 1000));
    assert!(!d.after_pause(&mut c, 1000));
    assert!(!d.after_pause(&mut c, 2999));
    assert!(d.after_pause(&mut c, 1));
    assert!(!d.after_pause(&mut c, 4999));
    assert!(d.after_pause(&mut c, u64::MAX));
    assert!(!d.after_pause(&mut c, 0));
    let mut often = Driver::every(0);
    assert!(often.after_pause(&mut c, 0));
    let mut never = Driver::every(u64::MAX);
    assert!(!never.after_pause(&mut c, u64::MAX - 1));
    assert!(never.after_pause(&mut c, 1));
    assert!(!c.done());
}
