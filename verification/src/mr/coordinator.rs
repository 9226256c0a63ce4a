//! The coordinator: the job record, the operations that workers call on it,
//! and the sweep that takes back the leases of workers that went silent.
//!
//! Every operation is one atomic step of the model in [`crate::mr::job`]; a
//! caller that serves several workers at once runs them one at a time.

use crate::mr::clock;
use crate::mr::job::{
    dispatch_code, dispatch_tasks, has_in_flight, has_pending, is_lowest_pending, leased,
    lemma_lowest_pending_exists, lemma_lowest_pending_unique, lemma_next_keeps_inv, sweep_tasks,
    all_done, CoordinatorError, Event, JobState, Phase, TaskKind, TaskState, LEASE_DURATION, SWEEP_INTERVAL,
    NOT_READY, PHASE_DONE, WAIT_RETRY,
};
use crate::mr::text::join_lines;
use crate::mr::wal::{
    all_true, lemma_restore_keeps_inv, parse_wal, read_wal, render_wal, restorable,
    restore, restore_table, wal_lines,
};
use vstd::prelude::*;

verus! {

pub struct Coordinator {
    /// The map tasks that were dispatched at least once; the index is the id.
    map_tasks: Vec<TaskState>,
    /// Same as `map_tasks`, for the reduce phase.
    reduce_tasks: Vec<TaskState>,
    /// The number of input files, which is also the number of map tasks.
    map_n: i32,
    /// The number of reduce tasks.
    reduce_n: i32,
    /// The number of worker processes.
    worker_n: i32,
    /// The id that the next worker to register gets.
    next_worker_id: i32,
    phase: Phase,
    /// Length of a lease, in milliseconds.
    lease: u64,
    /// The instant from which this coordinator counts its milliseconds.
    started: tokio::time::Instant,
}

impl View for Coordinator {
    type V = JobState;

    closed spec fn view(&self) -> JobState {
        JobState {
            map_n: self.map_n as int,
            reduce_n: self.reduce_n as int,
            worker_n: self.worker_n as int,
            next_worker_id: self.next_worker_id as int,
            map_tasks: self.map_tasks@,
            reduce_tasks: self.reduce_tasks@,
            phase: self.phase,
            lease: self.lease as int,
        }
    }
}

/// Answers a task request on one table.
fn dispatch(tasks: &mut Vec<TaskState>, n: i32, now: u64) -> (code: i32)
    requires
        old(tasks)@.len() <= n,
    ensures
        code == dispatch_code(old(tasks)@, n as int),
        final(tasks)@ == dispatch_tasks(old(tasks)@, n as int, now),
{
    let ghost before = tasks@;
    let len = tasks.len();
    if len < n as usize {
        tasks.push(TaskState::InFlight { leased_at: now });
        return len as i32;
    }
    let mut i: usize = 0;
    let mut in_flight = false;
    while i < len
        invariant
            i <= len,
            len == before.len(),
            len == n,
            tasks@ == before,
            before == old(tasks)@,
            forall|j: int| 0 <= j < i ==> before[j] != TaskState::Pending,
            in_flight == exists|j: int| 0 <= j < i && (#[trigger] before[j]).holds_lease(),
        decreases len - i,
    {
        match tasks[i] {
            TaskState::Pending => {
                proof {
                    assert(is_lowest_pending(before, i as int));
                    assert(has_pending(before));
                    lemma_lowest_pending_exists(before);
                    lemma_lowest_pending_unique(before, i as int, dispatch_code(before, n as int));
                }
                tasks.set(i, TaskState::InFlight { leased_at: now });
                return i as i32;
            },
            TaskState::InFlight { .. } => {
                in_flight = true;
            },
            TaskState::Done => {},
        }
        i += 1;
    }
    proof {
        assert(!has_pending(before));
        assert(in_flight == has_in_flight(before));
    }
    if in_flight {
        WAIT_RETRY
    } else {
        PHASE_DONE
    }
}

/// Tells whether all `n` tasks of a table were dispatched and are `Done`.
fn table_done(tasks: &Vec<TaskState>, n: i32) -> (r: bool)
    requires
        tasks@.len() <= n,
    ensures
        r == all_done(tasks@, n as int),
{
    if tasks.len() != n as usize {
        return false;
    }
    let mut i: usize = 0;
    while i < tasks.len()
        invariant
            i <= tasks@.len(),
            forall|j: int| 0 <= j < i ==> tasks@[j] == TaskState::Done,
        decreases tasks@.len() - i,
    {
        match tasks[i] {
            TaskState::Done => {},
            _ => {
                return false;
            },
        }
        i += 1;
    }
    true
}

/// Tells whether task `id` of a table exists and holds a lease.
fn table_leased(tasks: &Vec<TaskState>, id: i32) -> (r: bool)
    ensures
        r == leased(tasks@, id as int),
{
    if id < 0 || id as usize >= tasks.len() {
        return false;
    }
    match tasks[id as usize] {
        TaskState::InFlight { .. } => true,
        _ => false,
    }
}

/// Tells whether a task has a lease whose deadline lies before `now`.
fn lease_expired(task: TaskState, lease: u64, now: u64) -> (r: bool)
    ensures
        r == task.expired(lease as int, now as int),
{
    match task {
        TaskState::InFlight { leased_at } => now > leased_at && now - leased_at > lease,
        _ => false,
    }
}

/// Takes the lease from every task of a table whose deadline has passed.
fn sweep_table(tasks: &mut Vec<TaskState>, lease: u64, now: u64)
    ensures
        final(tasks)@ == sweep_tasks(old(tasks)@, lease as int, now as int),
{
    let ghost before = tasks@;
    let mut i: usize = 0;
    while i < tasks.len()
        invariant
            i <= tasks@.len(),
            tasks@.len() == before.len(),
            before == old(tasks)@,
            forall|j: int| 0 <= j < i ==> tasks@[j] == before[j].swept(lease as int, now as int),
            forall|j: int| i <= j < before.len() ==> tasks@[j] == before[j],
        decreases tasks@.len() - i,
    {
        if lease_expired(tasks[i], lease, now) {
            tasks.set(i, TaskState::Pending);
        }
        i += 1;
    }
    assert(tasks@ =~= sweep_tasks(before, lease as int, now as int));
}

impl Coordinator {
    /// The invariant of the job record.
    pub open spec fn wf(&self) -> bool {
        self@.inv()
    }

    /// Creates the coordinator of a job of `map_n` map tasks and `reduce_n`
    /// reduce tasks that starts once `worker_n` workers have registered.
    pub fn new(map_n: i32, reduce_n: i32, worker_n: i32) -> (c: Self)
        requires
            map_n > 0,
            reduce_n > 0,
            worker_n > 0,
        ensures
            c@ == JobState::initial(map_n as int, reduce_n as int, worker_n as int, LEASE_DURATION as int),
            c.wf(),
    {
        Self {
            map_tasks: Vec::new(),
            reduce_tasks: Vec::new(),
            map_n,
            reduce_n,
            worker_n,
            next_worker_id: 0,
            phase: Phase::MapRunning,
            lease: LEASE_DURATION,
            started: clock::start(),
        }
    }

    /// Replaces the length of a lease, in milliseconds.
    pub fn with_lease_duration(self, millis: u64) -> (c: Self)
        requires
            self.wf(),
        ensures
            c@ == (JobState { lease: millis as int, ..self@ }),
            c.wf(),
    {
        let mut c = self;
        c.lease = millis;
        c
    }

    /// Tells whether the configured number of workers have registered. No
    /// task is handed out before.
    pub fn prepare(&self) -> (r: bool)
        ensures
            r == self@.prepared(),
    {
        self.next_worker_id == self.worker_n
    }

    /// Tells whether the whole job has finished.
    pub fn done(&self) -> (r: bool)
        ensures
            r == (self@.phase == Phase::Finished),
    {
        match self.phase {
            Phase::Finished => true,
            _ => false,
        }
    }

    /// The phase that the job is in.
    pub fn phase(&self) -> (p: Phase)
        ensures
            p == self@.phase,
    {
        self.phase
    }

    /// The state of a task, or `None` for a task that was never dispatched.
    pub fn task_state(&self, kind: TaskKind, id: i32) -> (r: Option<TaskState>)
        ensures
            r == if 0 <= id < self@.tasks(kind).len() {
                Some(self@.tasks(kind)[id as int])
            } else {
                None
            },
    {
        let tasks = match kind {
            TaskKind::MapTask => &self.map_tasks,
            TaskKind::ReduceTask => &self.reduce_tasks,
        };
        if id < 0 || id as usize >= tasks.len() {
            None
        } else {
            Some(tasks[id as usize])
        }
    }

    /// Gives the next worker its id, or fails with `CapacityExceeded` once
    /// every id was given out.
    pub fn register_worker(&mut self) -> (r: Result<i32, CoordinatorError>)
        requires
            old(self).wf(),
        ensures
            final(self).wf(),
            final(self)@ == old(self)@.register(),
            old(self)@.prepared() ==> r == Err::<i32, CoordinatorError>(
                CoordinatorError::CapacityExceeded,
            ),
            !old(self)@.prepared() ==> r == Ok::<i32, CoordinatorError>(
                old(self)@.next_worker_id as i32,
            ),
    {
        if self.next_worker_id == self.worker_n {
            return Err(CoordinatorError::CapacityExceeded);
        }
        let id = self.next_worker_id;
        self.next_worker_id = id + 1;
        Ok(id)
    }

    /// Answers a worker that asks for a map task at time `now`: the id of a
    /// task that the caller now holds the lease of, or one of `NOT_READY`,
    /// `WAIT_RETRY`, `PHASE_DONE`.
    pub fn request_map_task(&mut self, now: u64) -> (code: i32)
        requires
            old(self).wf(),
        ensures
            final(self).wf(),
            code == old(self)@.request_map_code(),
            final(self)@ == old(self)@.request_map(now),
    {
        proof {
            lemma_next_keeps_inv(self@, Event::RequestMap { now });
        }
        if self.next_worker_id != self.worker_n {
            return NOT_READY;
        }
        match self.phase {
            Phase::MapRunning => {},
            _ => {
                return PHASE_DONE;
            },
        }
        let code = dispatch(&mut self.map_tasks, self.map_n, now);
        if table_done(&self.map_tasks, self.map_n) {
            self.phase = Phase::ReduceRunning;
        }
        code
    }

    /// Answers a worker that asks for a reduce task at time `now`, as
    /// `request_map_task` does for a map task; `NOT_READY` until the map
    /// phase is over.
    pub fn request_reduce_task(&mut self, now: u64) -> (code: i32)
        requires
            old(self).wf(),
        ensures
            final(self).wf(),
            code == old(self)@.request_reduce_code(),
            final(self)@ == old(self)@.request_reduce(now),
    {
        proof {
            lemma_next_keeps_inv(self@, Event::RequestReduce { now });
        }
        match self.phase {
            Phase::MapRunning => {
                return NOT_READY;
            },
            Phase::Finished => {
                return PHASE_DONE;
            },
            Phase::ReduceRunning => {},
        }
        let code = dispatch(&mut self.reduce_tasks, self.reduce_n, now);
        if table_done(&self.reduce_tasks, self.reduce_n) {
            self.phase = Phase::Finished;
        }
        code
    }

    /// Records that map task `id` is complete. The task must hold a lease;
    /// for any other id the job is left as it was and the report fails.
    /// The report that completes the last map task starts the reduce phase.
    pub fn report_map_complete(&mut self, id: i32) -> (r: Result<bool, CoordinatorError>)
        requires
            old(self).wf(),
        ensures
            final(self).wf(),
            final(self)@ == old(self)@.report_map(id as int),
            leased(old(self)@.map_tasks, id as int) ==> r == Ok::<bool, CoordinatorError>(true),
            !leased(old(self)@.map_tasks, id as int) ==> r == Err::<bool, CoordinatorError>(
                CoordinatorError::InvariantViolation,
            ),
    {
        proof {
            lemma_next_keeps_inv(self@, Event::ReportMap { id: id as int });
        }
        if !table_leased(&self.map_tasks, id) {
            return Err(CoordinatorError::InvariantViolation);
        }
        self.map_tasks.set(id as usize, TaskState::Done);
        if table_done(&self.map_tasks, self.map_n) {
            self.phase = Phase::ReduceRunning;
        }
        Ok(true)
    }

    /// Records that reduce task `id` is complete, as `report_map_complete`
    /// does for a map task. The report that completes the last reduce task
    /// finishes the job.
    pub fn report_reduce_complete(&mut self, id: i32) -> (r: Result<bool, CoordinatorError>)
        requires
            old(self).wf(),
        ensures
            final(self).wf(),
            final(self)@ == old(self)@.report_reduce(id as int),
            leased(old(self)@.reduce_tasks, id as int) ==> r == Ok::<bool, CoordinatorError>(true),
            !leased(old(self)@.reduce_tasks, id as int) ==> r == Err::<bool, CoordinatorError>(
                CoordinatorError::InvariantViolation,
            ),
    {
        proof {
            lemma_next_keeps_inv(self@, Event::ReportReduce { id: id as int });
        }
        if !table_leased(&self.reduce_tasks, id) {
            return Err(CoordinatorError::InvariantViolation);
        }
        self.reduce_tasks.set(id as usize, TaskState::Done);
        if table_done(&self.reduce_tasks, self.reduce_n) {
            self.phase = Phase::Finished;
        }
        Ok(true)
    }

    /// Renews the lease of a task at time `now`. `Ok(true)` where the task
    /// held a lease, which now starts at `now`; `Ok(false)` where the task
    /// exists but its lease is gone, so that the worker must give the task
    /// up; `InvariantViolation` for a task that was never dispatched.
    pub fn renew_lease(&mut self, kind: TaskKind, id: i32, now: u64) -> (r: Result<
        bool,
        CoordinatorError,
    >)
        requires
            old(self).wf(),
        ensures
            final(self).wf(),
            final(self)@ == old(self)@.renew(kind, id as int, now),
            r == if 0 <= id < old(self)@.tasks(kind).len() {
                Ok::<bool, CoordinatorError>(leased(old(self)@.tasks(kind), id as int))
            } else {
                Err::<bool, CoordinatorError>(CoordinatorError::InvariantViolation)
            },
    {
        proof {
            lemma_next_keeps_inv(self@, Event::Renew { kind, id: id as int, now });
        }
        match kind {
            TaskKind::MapTask => {
                if id < 0 || id as usize >= self.map_tasks.len() {
                    return Err(CoordinatorError::InvariantViolation);
                }
                if !table_leased(&self.map_tasks, id) {
                    return Ok(false);
                }
                self.map_tasks.set(id as usize, TaskState::InFlight { leased_at: now });
            },
            TaskKind::ReduceTask => {
                if id < 0 || id as usize >= self.reduce_tasks.len() {
                    return Err(CoordinatorError::InvariantViolation);
                }
                if !table_leased(&self.reduce_tasks, id) {
                    return Ok(false);
                }
                self.reduce_tasks.set(id as usize, TaskState::InFlight { leased_at: now });
            },
        }
        Ok(true)
    }

    /// Takes back, at time `now`, the lease of every task of the running
    /// phase whose deadline has passed; such a task is `Pending` again.
    pub fn sweep(&mut self, now: u64)
        requires
            old(self).wf(),
        ensures
            final(self).wf(),
            final(self)@ == old(self)@.sweep(now),
    {
        proof {
            lemma_next_keeps_inv(self@, Event::Sweep { now });
        }
        match self.phase {
            Phase::MapRunning => {
                sweep_table(&mut self.map_tasks, self.lease, now);
            },
            Phase::ReduceRunning => {
                sweep_table(&mut self.reduce_tasks, self.lease, now);
            },
            Phase::Finished => {},
        }
    }

    /// The text of the write-ahead log of the job as it stands. A caller
    /// that keeps a log writes it before each completion report.
    pub fn serialize(&self) -> (text: String)
        requires
            self.wf(),
        ensures
            text@ == join_lines(wal_lines(self@.map_tasks, self@.reduce_tasks, self@.phase)),
    {
        render_wal(&self.map_tasks, &self.reduce_tasks, self.phase)
    }

    /// Takes the job up from the text of a write-ahead log: what the log
    /// tells to be done is done, and every other task that it tells of is
    /// `Pending`. `false`, and nothing changed, where the text is no log or
    /// does not fit the job.
    pub fn recover(&mut self, wal: &str) -> (ok: bool)
        requires
            old(self).wf(),
        ensures
            final(self).wf(),
            ok == (parse_wal(wal@) is Some && restorable(old(self)@, parse_wal(wal@)->0)),
            ok ==> final(self)@ == restore(old(self)@, parse_wal(wal@)->0),
            !ok ==> final(self)@ == old(self)@,
    {
        let record = match read_wal(wal) {
            Some(record) => record,
            None => {
                return false;
            },
        };
        if record.map_done.len() > self.map_n as usize || record.reduce_done.len()
            > self.reduce_n as usize {
            return false;
        }
        if record.map_finish {
            if record.map_done.len() != self.map_n as usize || !all_true(&record.map_done) {
                return false;
            }
        } else {
            if record.reduce_done.len() != 0 || record.reduce_finish {
                return false;
            }
        }
        if record.reduce_finish {
            if record.reduce_done.len() != self.reduce_n as usize || !all_true(
                &record.reduce_done,
            ) {
                return false;
            }
        }
        proof {
            lemma_restore_keeps_inv(self@, record@);
        }
        self.map_tasks = restore_table(&record.map_done);
        self.reduce_tasks = restore_table(&record.reduce_done);
        self.phase = if record.reduce_finish {
            Phase::Finished
        } else if record.map_finish {
            Phase::ReduceRunning
        } else {
            Phase::MapRunning
        };
        true
    }

    /// The milliseconds that have passed since this coordinator was made.
    pub fn now(&self) -> u64 {
        clock::elapsed_millis(&self.started)
    }

    /// Sweeps the leases at the time of the call. Always `true`.
    pub fn check_lease(&mut self) -> (r: bool)
        requires
            old(self).wf(),
        ensures
            final(self).wf(),
            r,
            exists|now: u64| final(self)@ == old(self)@.sweep(now),
    {
        let now = self.now();
        self.sweep(now);
        true
    }
}

/// What the outer loop of the coordinator keeps: the milliseconds since
/// the last sweep, and the milliseconds after which the next one is due.
pub struct DriverState {
    pub since_sweep: int,
    pub interval: int,
}

/// The outer loop of the coordinator: it owns no task, and has the leases
/// swept at intervals.
pub struct Driver {
    since_sweep: u64,
    interval: u64,
}

impl View for Driver {
    type V = DriverState;

    closed spec fn view(&self) -> DriverState {
        DriverState { since_sweep: self.since_sweep as int, interval: self.interval as int }
    }
}

impl Driver {
    /// A driver that has the leases swept every `SWEEP_INTERVAL`.
    pub fn new() -> (d: Self)
        ensures
            d@ == (DriverState { since_sweep: 0, interval: SWEEP_INTERVAL as int }),
    {
        Self { since_sweep: 0, interval: SWEEP_INTERVAL }
    }

    /// A driver that has the leases swept every `interval` milliseconds.
    pub fn every(interval: u64) -> (d: Self)
        ensures
            d@ == (DriverState { since_sweep: 0, interval: interval as int }),
    {
        Self { since_sweep: 0, interval }
    }

    /// One turn of the loop, after a pause of `elapsed` milliseconds: once
    /// the interval has passed since the last sweep, the leases of the job
    /// are swept at the time of the call and the count starts again.
    /// Tells whether it swept.
    pub fn after_pause(&mut self, job: &mut Coordinator, elapsed: u64) -> (swept: bool)
        requires
            old(job).wf(),
        ensures
            final(job).wf(),
            swept == (old(self)@.since_sweep + elapsed >= old(self)@.interval),
            final(self)@.interval == old(self)@.interval,
            final(self)@.since_sweep == if swept {
                0
            } else {
                old(self)@.since_sweep + elapsed
            },
            swept ==> exists|now: u64| final(job)@ == old(job)@.sweep(now),
            !swept ==> final(job)@ == old(job)@,
    {
        let due = if elapsed >= u64::MAX - self.since_sweep {
            true
        } else {
            self.since_sweep + elapsed >= self.interval
        };
        if due {
            job.check_lease();
            self.since_sweep = 0;
        } else {
            self.since_sweep = self.since_sweep + elapsed;
        }
        due
    }
}

/// The operations that a worker calls on the coordinator, as they go over the
/// wire: none of them carries a time, each is answered at the time of the
/// call.
pub trait Server {
    /// The invariant of the server's state.
    spec fn serving(&self) -> bool;

    /// Get the corresponding map task.
    fn get_map_task(&mut self) -> (code: i32)
        requires
            old(self).serving(),
        ensures
            final(self).serving(),
    ;

    /// Get the corresponding reduce task. The reduce phase does not begin
    /// until all map tasks have finished.
    fn get_reduce_task(&mut self) -> (code: i32)
        requires
            old(self).serving(),
        ensures
            final(self).serving(),
    ;

    /// Get the corresponding worker id.
    fn get_worker_id(&mut self) -> (r: Result<i32, CoordinatorError>)
        requires
            old(self).serving(),
        ensures
            final(self).serving(),
    ;

    /// Report that a map task has finished.
    fn report_map_task_finish(&mut self, id: i32) -> (r: Result<bool, CoordinatorError>)
        requires
            old(self).serving(),
        ensures
            final(self).serving(),
    ;

    /// Report that a reduce task has finished.
    fn report_reduce_task_finish(&mut self, id: i32) -> (r: Result<bool, CoordinatorError>)
        requires
            old(self).serving(),
        ensures
            final(self).serving(),
    ;

    /// Renew the lease of a map task.
    fn renew_map_lease(&mut self, id: i32) -> (r: Result<bool, CoordinatorError>)
        requires
            old(self).serving(),
        ensures
            final(self).serving(),
    ;

    /// Renew the lease of a reduce task.
    fn renew_reduce_lease(&mut self, id: i32) -> (r: Result<bool, CoordinatorError>)
        requires
            old(self).serving(),
        ensures
            final(self).serving(),
    ;
}

impl Server for Coordinator {
    open spec fn serving(&self) -> bool {
        self.wf()
    }

    fn get_map_task(&mut self) -> (code: i32)
        ensures
            code == old(self)@.request_map_code(),
            exists|now: u64| final(self)@ == old(self)@.request_map(now),
    {
        let now = self.now();
        self.request_map_task(now)
    }

    fn get_reduce_task(&mut self) -> (code: i32)
        ensures
            code == old(self)@.request_reduce_code(),
            exists|now: u64| final(self)@ == old(self)@.request_reduce(now),
    {
        let now = self.now();
        self.request_reduce_task(now)
    }

    fn get_worker_id(&mut self) -> (r: Result<i32, CoordinatorError>)
        ensures
            final(self)@ == old(self)@.register(),
            old(self)@.prepared() ==> r == Err::<i32, CoordinatorError>(
                CoordinatorError::CapacityExceeded,
            ),
            !old(self)@.prepared() ==> r == Ok::<i32, CoordinatorError>(
                old(self)@.next_worker_id as i32,
            ),
    {
        self.register_worker()
    }

    fn report_map_task_finish(&mut self, id: i32) -> (r: Result<bool, CoordinatorError>)
        ensures
            final(self)@ == old(self)@.report_map(id as int),
            leased(old(self)@.map_tasks, id as int) ==> r == Ok::<bool, CoordinatorError>(true),
            !leased(old(self)@.map_tasks, id as int) ==> r == Err::<bool, CoordinatorError>(
                CoordinatorError::InvariantViolation,
            ),
    {
        self.report_map_complete(id)
    }

    fn report_reduce_task_finish(&mut self, id: i32) -> (r: Result<bool, CoordinatorError>)
        ensures
            final(self)@ == old(self)@.report_reduce(id as int),
            leased(old(self)@.reduce_tasks, id as int) ==> r == Ok::<bool, CoordinatorError>(true),
            !leased(old(self)@.reduce_tasks, id as int) ==> r == Err::<bool, CoordinatorError>(
                CoordinatorError::InvariantViolation,
            ),
    {
        self.report_reduce_complete(id)
    }

    fn renew_map_lease(&mut self, id: i32) -> (r: Result<bool, CoordinatorError>)
        ensures
            exists|now: u64| final(self)@ == old(self)@.renew(TaskKind::MapTask, id as int, now),
            r == if 0 <= id < old(self)@.map_tasks.len() {
                Ok::<bool, CoordinatorError>(leased(old(self)@.map_tasks, id as int))
            } else {
                Err::<bool, CoordinatorError>(CoordinatorError::InvariantViolation)
            },
    {
        let now = self.now();
        self.renew_lease(TaskKind::MapTask, id, now)
    }

    fn renew_reduce_lease(&mut self, id: i32) -> (r: Result<bool, CoordinatorError>)
        ensures
            exists|now: u64|
                final(self)@ == old(self)@.renew(TaskKind::ReduceTask, id as int, now),
            r == if 0 <= id < old(self)@.reduce_tasks.len() {
                Ok::<bool, CoordinatorError>(leased(old(self)@.reduce_tasks, id as int))
            } else {
                Err::<bool, CoordinatorError>(CoordinatorError::InvariantViolation)
            },
    {
        let now = self.now();
        self.renew_lease(TaskKind::ReduceTask, id, now)
    }
}

} // verus!
