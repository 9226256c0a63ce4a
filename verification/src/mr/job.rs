//! The mathematical model of a job: the task tables, the phase, and the
//! transition that each coordinator operation makes, together with the laws
//! that hold of every reachable state.

use vstd::prelude::*;

verus! {

/// Reply of a task request: the job is not prepared yet, or a reduce task was
/// asked for before the map phase was over.
pub const NOT_READY: i32 = -2;

/// Reply of a task request: nothing can be handed out now, but leases are
/// still outstanding, so the caller should ask again.
pub const WAIT_RETRY: i32 = -3;

/// Reply of a task request: the phase is exhausted.
pub const PHASE_DONE: i32 = -1;

/// Default length of a lease, in milliseconds.
pub const LEASE_DURATION: u64 = 5000;

/// Default pause of an idle worker between two requests, in milliseconds.
pub const POLL_INTERVAL: u64 = 1000;

/// Default pause between two sweeps of the leases, in milliseconds.
pub const SWEEP_INTERVAL: u64 = 5000;

/// The state of one task. A lease is outstanding exactly while the task is
/// `InFlight`; `leased_at` is the time at which the lease was granted or last
/// renewed.
#[derive(Clone, Copy, Debug, PartialEq, Eq, Structural)]
pub enum TaskState {
    Pending,
    InFlight { leased_at: u64 },
    Done,
}

/// The global mode of the job.
#[derive(Clone, Copy, Debug, PartialEq, Eq, Structural)]
pub enum Phase {
    MapRunning,
    ReduceRunning,
    Finished,
}

/// Which of the two task tables an operation addresses.
#[derive(Clone, Copy, Debug, PartialEq, Eq, Structural)]
pub enum TaskKind {
    MapTask,
    ReduceTask,
}

/// Why the coordinator refused an operation.
#[derive(Clone, Copy, Debug, PartialEq, Eq, Structural)]
pub enum CoordinatorError {
    /// A worker asked for an identity after all of them were given out.
    CapacityExceeded,
    /// A completion report for a task that holds no lease, or a renewal for a
    /// task that was never dispatched.
    InvariantViolation,
}

impl TaskState {
    pub open spec fn holds_lease(self) -> bool {
        self is InFlight
    }

    /// The instant after which the lease counts as lost.
    pub open spec fn lease_deadline(self, lease: int) -> int
        recommends
            self is InFlight,
    {
        self->leased_at + lease
    }

    /// An `InFlight` task whose deadline lies before `now`.
    pub open spec fn expired(self, lease: int, now: int) -> bool {
        self is InFlight && self.lease_deadline(lease) < now
    }

    /// The state after a sweep at `now`.
    pub open spec fn swept(self, lease: int, now: int) -> TaskState {
        if self.expired(lease, now) {
            TaskState::Pending
        } else {
            self
        }
    }
}

/// Every one of the `n` tasks exists and is `Done`.
pub open spec fn all_done(tasks: Seq<TaskState>, n: int) -> bool {
    &&& tasks.len() == n
    &&& forall|i: int| 0 <= i < tasks.len() ==> tasks[i] == TaskState::Done
}

pub open spec fn has_pending(tasks: Seq<TaskState>) -> bool {
    exists|i: int| 0 <= i < tasks.len() && tasks[i] == TaskState::Pending
}

pub open spec fn has_in_flight(tasks: Seq<TaskState>) -> bool {
    exists|i: int| 0 <= i < tasks.len() && (#[trigger] tasks[i]).holds_lease()
}

/// `id` is the smallest id of a `Pending` task.
pub open spec fn is_lowest_pending(tasks: Seq<TaskState>, id: int) -> bool {
    &&& 0 <= id < tasks.len()
    &&& tasks[id] == TaskState::Pending
    &&& forall|j: int| 0 <= j < id ==> tasks[j] != TaskState::Pending
}

pub open spec fn lowest_pending(tasks: Seq<TaskState>) -> int {
    choose|id: int| is_lowest_pending(tasks, id)
}

/// Number of `Done` tasks in a table.
pub open spec fn done_count(tasks: Seq<TaskState>) -> nat
    decreases tasks.len(),
{
    if tasks.len() == 0 {
        0
    } else {
        done_count(tasks.drop_last()) + if tasks.last() == TaskState::Done {
            1nat
        } else {
            0nat
        }
    }
}

/// The reply to a task request on a table of at most `n` tasks: a fresh id
/// while one is left, else the lowest reclaimed id, else `WAIT_RETRY` while a
/// lease is outstanding, else `PHASE_DONE`.
pub open spec fn dispatch_code(tasks: Seq<TaskState>, n: int) -> int {
    if tasks.len() < n {
        tasks.len() as int
    } else if has_pending(tasks) {
        lowest_pending(tasks)
    } else if has_in_flight(tasks) {
        WAIT_RETRY as int
    } else {
        PHASE_DONE as int
    }
}

/// The table after task `id` was given a lease at `now`; `id` is an existing
/// task or the next fresh one.
pub open spec fn grant(tasks: Seq<TaskState>, id: int, now: u64) -> Seq<TaskState> {
    if id == tasks.len() {
        tasks.push(TaskState::InFlight { leased_at: now })
    } else {
        tasks.update(id, TaskState::InFlight { leased_at: now })
    }
}

/// The table after a task request.
pub open spec fn dispatch_tasks(tasks: Seq<TaskState>, n: int, now: u64) -> Seq<TaskState> {
    let code = dispatch_code(tasks, n);
    if code >= 0 {
        grant(tasks, code, now)
    } else {
        tasks
    }
}

/// The table after a sweep at `now`.
pub open spec fn sweep_tasks(tasks: Seq<TaskState>, lease: int, now: int) -> Seq<TaskState> {
    Seq::new(tasks.len(), |i: int| tasks[i].swept(lease, now))
}

/// Task `id` exists and holds a lease.
pub open spec fn leased(tasks: Seq<TaskState>, id: int) -> bool {
    0 <= id < tasks.len() && tasks[id].holds_lease()
}

/// An operation of the coordinator, with its arguments.
pub enum Event {
    Register,
    RequestMap { now: u64 },
    RequestReduce { now: u64 },
    ReportMap { id: int },
    ReportReduce { id: int },
    Renew { kind: TaskKind, id: int, now: u64 },
    Sweep { now: u64 },
}

/// The state of a job. A task table holds the tasks that were dispatched at
/// least once, by id; its length is the next fresh id of that phase.
pub struct JobState {
    pub map_n: int,
    pub reduce_n: int,
    pub worker_n: int,
    pub next_worker_id: int,
    pub map_tasks: Seq<TaskState>,
    pub reduce_tasks: Seq<TaskState>,
    pub phase: Phase,
    pub lease: int,
}

impl JobState {
    /// The job as it is created: no worker registered, no task dispatched.
    pub open spec fn initial(map_n: int, reduce_n: int, worker_n: int, lease: int) -> JobState {
        JobState {
            map_n,
            reduce_n,
            worker_n,
            next_worker_id: 0,
            map_tasks: Seq::empty(),
            reduce_tasks: Seq::empty(),
            phase: Phase::MapRunning,
            lease,
        }
    }

    /// What holds of every state that the operations can reach.
    pub open spec fn inv(self) -> bool {
        &&& 0 <= self.next_worker_id <= self.worker_n <= i32::MAX
        &&& self.map_tasks.len() <= self.map_n <= i32::MAX
        &&& self.reduce_tasks.len() <= self.reduce_n <= i32::MAX
        &&& 0 <= self.lease <= u64::MAX
        &&& self.phase == Phase::MapRunning ==> self.reduce_tasks.len() == 0
        &&& self.phase != Phase::MapRunning ==> all_done(self.map_tasks, self.map_n)
        &&& self.phase == Phase::Finished ==> all_done(self.reduce_tasks, self.reduce_n)
    }

    /// All the workers that the job was configured for have registered.
    pub open spec fn prepared(self) -> bool {
        self.next_worker_id == self.worker_n
    }

    pub open spec fn next_map_id(self) -> int {
        self.map_tasks.len() as int
    }

    pub open spec fn next_reduce_id(self) -> int {
        self.reduce_tasks.len() as int
    }

    pub open spec fn tasks(self, kind: TaskKind) -> Seq<TaskState> {
        match kind {
            TaskKind::MapTask => self.map_tasks,
            TaskKind::ReduceTask => self.reduce_tasks,
        }
    }

    pub open spec fn register(self) -> JobState {
        if self.next_worker_id < self.worker_n {
            JobState { next_worker_id: self.next_worker_id + 1, ..self }
        } else {
            self
        }
    }

    pub open spec fn request_map_code(self) -> int {
        if !self.prepared() {
            NOT_READY as int
        } else if self.phase != Phase::MapRunning {
            PHASE_DONE as int
        } else {
            dispatch_code(self.map_tasks, self.map_n)
        }
    }

    pub open spec fn request_map(self, now: u64) -> JobState {
        if !self.prepared() || self.phase != Phase::MapRunning {
            self
        } else {
            let tasks = dispatch_tasks(self.map_tasks, self.map_n, now);
            JobState {
                map_tasks: tasks,
                phase: if all_done(tasks, self.map_n) {
                    Phase::ReduceRunning
                } else {
                    Phase::MapRunning
                },
                ..self
            }
        }
    }

    pub open spec fn request_reduce_code(self) -> int {
        match self.phase {
            Phase::MapRunning => NOT_READY as int,
            Phase::Finished => PHASE_DONE as int,
            Phase::ReduceRunning => dispatch_code(self.reduce_tasks, self.reduce_n),
        }
    }

    pub open spec fn request_reduce(self, now: u64) -> JobState {
        if self.phase != Phase::ReduceRunning {
            self
        } else {
            let tasks = dispatch_tasks(self.reduce_tasks, self.reduce_n, now);
            JobState {
                reduce_tasks: tasks,
                phase: if all_done(tasks, self.reduce_n) {
                    Phase::Finished
                } else {
                    Phase::ReduceRunning
                },
                ..self
            }
        }
    }

    pub open spec fn report_map(self, id: int) -> JobState {
        if leased(self.map_tasks, id) {
            let tasks = self.map_tasks.update(id, TaskState::Done);
            JobState {
                map_tasks: tasks,
                phase: if all_done(tasks, self.map_n) {
                    Phase::ReduceRunning
                } else {
                    self.phase
                },
                ..self
            }
        } else {
            self
        }
    }

    pub open spec fn report_reduce(self, id: int) -> JobState {
        if leased(self.reduce_tasks, id) {
            let tasks = self.reduce_tasks.update(id, TaskState::Done);
            JobState {
                reduce_tasks: tasks,
                phase: if all_done(tasks, self.reduce_n) {
                    Phase::Finished
                } else {
                    self.phase
                },
                ..self
            }
        } else {
            self
        }
    }

    pub open spec fn renew(self, kind: TaskKind, id: int, now: u64) -> JobState {
        if leased(self.tasks(kind), id) {
            let tasks = self.tasks(kind).update(id, TaskState::InFlight { leased_at: now });
            match kind {
                TaskKind::MapTask => JobState { map_tasks: tasks, ..self },
                TaskKind::ReduceTask => JobState { reduce_tasks: tasks, ..self },
            }
        } else {
            self
        }
    }

    /// A sweep looks at the tasks of the phase that is running, and at no
    /// others.
    pub open spec fn sweep(self, now: u64) -> JobState {
        match self.phase {
            Phase::MapRunning => JobState {
                map_tasks: sweep_tasks(self.map_tasks, self.lease, now as int),
                ..self
            },
            Phase::ReduceRunning => JobState {
                reduce_tasks: sweep_tasks(self.reduce_tasks, self.lease, now as int),
                ..self
            },
            Phase::Finished => self,
        }
    }

    /// The state after one operation.
    pub open spec fn next(self, e: Event) -> JobState {
        match e {
            Event::Register => self.register(),
            Event::RequestMap { now } => self.request_map(now),
            Event::RequestReduce { now } => self.request_reduce(now),
            Event::ReportMap { id } => self.report_map(id),
            Event::ReportReduce { id } => self.report_reduce(id),
            Event::Renew { kind, id, now } => self.renew(kind, id, now),
            Event::Sweep { now } => self.sweep(now),
        }
    }
}

/// Two ids that are both the lowest pending one are the same id.
pub proof fn lemma_lowest_pending_unique(tasks: Seq<TaskState>, a: int, b: int)
    requires
        is_lowest_pending(tasks, a),
        is_lowest_pending(tasks, b),
    ensures
        a == b,
{
    if a < b {
        assert(tasks[a] != TaskState::Pending);
    } else if b < a {
        assert(tasks[b] != TaskState::Pending);
    }
}

/// A table with a pending task has a lowest one.
pub proof fn lemma_lowest_pending_exists(tasks: Seq<TaskState>)
    requires
        has_pending(tasks),
    ensures
        is_lowest_pending(tasks, lowest_pending(tasks)),
{
    let w = choose|i: int| 0 <= i < tasks.len() && tasks[i] == TaskState::Pending;
    lemma_lowest_below(tasks, w);
}

proof fn lemma_lowest_below(tasks: Seq<TaskState>, w: int)
    requires
        0 <= w < tasks.len(),
        tasks[w] == TaskState::Pending,
    ensures
        exists|id: int| is_lowest_pending(tasks, id),
    decreases w,
{
    if exists|j: int| 0 <= j < w && tasks[j] == TaskState::Pending {
        let j = choose|j: int| 0 <= j < w && tasks[j] == TaskState::Pending;
        lemma_lowest_below(tasks, j);
    } else {
        assert(is_lowest_pending(tasks, w));
    }
}

/// A task request that hands out an id hands out one that held no lease, and
/// changes no other task: no task ever has two leases at once.
pub proof fn lemma_dispatch_grants_unleased(tasks: Seq<TaskState>, n: int, now: u64)
    requires
        tasks.len() <= n,
        dispatch_code(tasks, n) >= 0,
    ensures
        ({
            let id = dispatch_code(tasks, n);
            let after = dispatch_tasks(tasks, n, now);
            &&& 0 <= id < after.len()
            &&& !leased(tasks, id)
            &&& after[id] == (TaskState::InFlight { leased_at: now })
            &&& id < tasks.len() ==> tasks[id] == TaskState::Pending && after.len() == tasks.len()
            &&& id >= tasks.len() ==> id == tasks.len() && after.len() == tasks.len() + 1
            &&& forall|j: int| 0 <= j < tasks.len() && j != id ==> after[j] == tasks[j]
        }),
{
    if tasks.len() < n {
    } else {
        assert(has_pending(tasks));
        lemma_lowest_pending_exists(tasks);
    }
}

/// Where every `Done` task of `a` is `Done` in `b` too, `b` counts at least
/// as many `Done` tasks as `a`.
pub proof fn lemma_done_count_monotonic(a: Seq<TaskState>, b: Seq<TaskState>)
    requires
        a.len() <= b.len(),
        forall|i: int| 0 <= i < a.len() && a[i] == TaskState::Done ==> b[i] == TaskState::Done,
    ensures
        done_count(a) <= done_count(b),
    decreases b.len(),
{
    if b.len() == 0 {
        assert(a.len() == 0);
    } else if a.len() == b.len() {
        lemma_done_count_monotonic(a.drop_last(), b.drop_last());
    } else {
        lemma_done_count_monotonic(a, b.drop_last());
    }
}

/// One table grew into another: no task was lost and no `Done` task changed.
pub open spec fn table_grew(a: Seq<TaskState>, b: Seq<TaskState>) -> bool {
    &&& a.len() <= b.len()
    &&& forall|i: int| 0 <= i < a.len() && a[i] == TaskState::Done ==> b[i] == TaskState::Done
}

proof fn lemma_dispatch_grew(tasks: Seq<TaskState>, n: int, now: u64)
    requires
        tasks.len() <= n,
    ensures
        table_grew(tasks, dispatch_tasks(tasks, n, now)),
        dispatch_tasks(tasks, n, now).len() <= n,
        !has_in_flight(tasks) && tasks.len() == n && !has_pending(tasks) ==> all_done(tasks, n),
        dispatch_code(tasks, n) >= 0 ==> !all_done(dispatch_tasks(tasks, n, now), n),
        dispatch_code(tasks, n) < 0 ==> dispatch_tasks(tasks, n, now) == tasks,
{
    if tasks.len() == n && has_pending(tasks) {
        lemma_lowest_pending_exists(tasks);
    }
    if dispatch_code(tasks, n) >= 0 {
        lemma_dispatch_grants_unleased(tasks, n, now);
        let after = dispatch_tasks(tasks, n, now);
        let id = dispatch_code(tasks, n);
        assert(after[id] != TaskState::Done);
    }
    if !has_in_flight(tasks) && tasks.len() == n && !has_pending(tasks) {
        assert forall|i: int| 0 <= i < tasks.len() implies tasks[i] == TaskState::Done by {
            if tasks[i] != TaskState::Done {
                if tasks[i] == TaskState::Pending {
                    assert(has_pending(tasks));
                } else {
                    assert(tasks[i].holds_lease());
                    assert(has_in_flight(tasks));
                }
            }
        }
    }
}

/// Every operation keeps the invariant of the job.
pub proof fn lemma_next_keeps_inv(s: JobState, e: Event)
    requires
        s.inv(),
    ensures
        s.next(e).inv(),
{
    match e {
        Event::Register => {},
        Event::RequestMap { now } => {
            lemma_dispatch_grew(s.map_tasks, s.map_n, now);
        },
        Event::RequestReduce { now } => {
            lemma_dispatch_grew(s.reduce_tasks, s.reduce_n, now);
        },
        Event::ReportMap { id } => {},
        Event::ReportReduce { id } => {},
        Event::Renew { kind, id, now } => {
            if leased(s.tasks(kind), id) {
                assert(s.tasks(kind)[id] != TaskState::Done);
            }
        },
        Event::Sweep { now } => {},
    }
}

/// While the reduce phase runs every map task is `Done`, and once the job is
/// finished every map task and every reduce task is.
pub proof fn lemma_phase_implies_done(s: JobState)
    requires
        s.inv(),
    ensures
        s.phase == Phase::ReduceRunning ==> all_done(s.map_tasks, s.map_n),
        s.phase == Phase::Finished ==> all_done(s.map_tasks, s.map_n) && all_done(
            s.reduce_tasks,
            s.reduce_n,
        ),
{
}

/// The invariant holds of a job as it is created.
pub proof fn lemma_initial_inv(map_n: int, reduce_n: int, worker_n: int, lease: int)
    requires
        0 <= map_n <= i32::MAX,
        0 <= reduce_n <= i32::MAX,
        0 <= worker_n <= i32::MAX,
        0 <= lease <= u64::MAX,
    ensures
        JobState::initial(map_n, reduce_n, worker_n, lease).inv(),
{
}

/// No operation lowers the next worker id, the next map id or the next
/// reduce id, turns a `Done` task into anything else, or lowers the number of
/// `Done` tasks of either phase.
pub proof fn lemma_next_monotonic(s: JobState, e: Event)
    requires
        s.inv(),
    ensures
        s.next_worker_id <= s.next(e).next_worker_id,
        s.next_map_id() <= s.next(e).next_map_id(),
        s.next_reduce_id() <= s.next(e).next_reduce_id(),
        table_grew(s.map_tasks, s.next(e).map_tasks),
        table_grew(s.reduce_tasks, s.next(e).reduce_tasks),
        done_count(s.map_tasks) <= done_count(s.next(e).map_tasks),
        done_count(s.reduce_tasks) <= done_count(s.next(e).reduce_tasks),
{
    match e {
        Event::Register => {},
        Event::RequestMap { now } => {
            lemma_dispatch_grew(s.map_tasks, s.map_n, now);
        },
        Event::RequestReduce { now } => {
            lemma_dispatch_grew(s.reduce_tasks, s.reduce_n, now);
        },
        Event::ReportMap { id } => {},
        Event::ReportReduce { id } => {},
        Event::Renew { kind, id, now } => {
            if leased(s.tasks(kind), id) {
                assert(s.tasks(kind)[id] != TaskState::Done);
            }
        },
        Event::Sweep { now } => {},
    }
    lemma_done_count_monotonic(s.map_tasks, s.next(e).map_tasks);
    lemma_done_count_monotonic(s.reduce_tasks, s.next(e).reduce_tasks);
}

/// The phase never goes back: from the map phase to the reduce phase to
/// finished.
pub proof fn lemma_phase_advances(s: JobState, e: Event)
    requires
        s.inv(),
    ensures
        s.phase == Phase::Finished ==> s.next(e).phase == Phase::Finished,
        s.phase == Phase::ReduceRunning ==> s.next(e).phase != Phase::MapRunning,
{
    match e {
        Event::RequestReduce { now } => {
            lemma_dispatch_grew(s.reduce_tasks, s.reduce_n, now);
        },
        _ => {},
    }
}

/// A sweep takes the lease from exactly the tasks whose deadline has passed:
/// each of them is `Pending` afterwards, and every other task is as it was.
pub proof fn lemma_sweep_reclaims_expired(tasks: Seq<TaskState>, lease: int, now: int, id: int)
    requires
        0 <= id < tasks.len(),
    ensures
        sweep_tasks(tasks, lease, now).len() == tasks.len(),
        tasks[id].expired(lease, now) ==> sweep_tasks(tasks, lease, now)[id] == TaskState::Pending,
        !tasks[id].expired(lease, now) ==> sweep_tasks(tasks, lease, now)[id] == tasks[id],
{
}

/// A map request that hands out an id gives a lease to a task that held
/// none, and to no other task: at no time does a task hold two leases.
pub proof fn lemma_map_request_grants_unleased(s: JobState, now: u64)
    requires
        s.inv(),
        s.request_map_code() >= 0,
    ensures
        !leased(s.map_tasks, s.request_map_code()),
        leased(s.request_map(now).map_tasks, s.request_map_code()),
        forall|j: int|
            0 <= j < s.map_tasks.len() && j != s.request_map_code() ==> s.request_map(
                now,
            ).map_tasks[j] == s.map_tasks[j],
        s.request_map(now).reduce_tasks == s.reduce_tasks,
{
    lemma_dispatch_grants_unleased(s.map_tasks, s.map_n, now);
}

/// A reduce request that hands out an id gives a lease to a task that held
/// none, and to no other task.
pub proof fn lemma_reduce_request_grants_unleased(s: JobState, now: u64)
    requires
        s.inv(),
        s.request_reduce_code() >= 0,
    ensures
        !leased(s.reduce_tasks, s.request_reduce_code()),
        leased(s.request_reduce(now).reduce_tasks, s.request_reduce_code()),
        forall|j: int|
            0 <= j < s.reduce_tasks.len() && j != s.request_reduce_code() ==> s.request_reduce(
                now,
            ).reduce_tasks[j] == s.reduce_tasks[j],
        s.request_reduce(now).map_tasks == s.map_tasks,
{
    lemma_dispatch_grants_unleased(s.reduce_tasks, s.reduce_n, now);
}

/// A table counts no more `Done` tasks than it has tasks, and as many
/// exactly where every task is `Done`.
pub proof fn lemma_done_count_bound(tasks: Seq<TaskState>)
    ensures
        done_count(tasks) <= tasks.len(),
        done_count(tasks) == tasks.len() <==> all_done(tasks, tasks.len() as int),
    decreases tasks.len(),
{
    if tasks.len() > 0 {
        lemma_done_count_bound(tasks.drop_last());
        let before = tasks.drop_last();
        if all_done(tasks, tasks.len() as int) {
            assert forall|i: int| 0 <= i < before.len() implies before[i] == TaskState::Done by {
                assert(before[i] == tasks[i]);
            }
        }
        if done_count(tasks) == tasks.len() {
            assert forall|i: int| 0 <= i < tasks.len() implies tasks[i] == TaskState::Done by {
                if i < before.len() {
                    assert(before[i] == tasks[i]);
                }
            }
        }
    }
}

/// Completing a task that was not `Done` counts one `Done` task more.
pub proof fn lemma_done_count_complete(tasks: Seq<TaskState>, id: int)
    requires
        0 <= id < tasks.len(),
        tasks[id] != TaskState::Done,
    ensures
        done_count(tasks.update(id, TaskState::Done)) == done_count(tasks) + 1,
    decreases tasks.len(),
{
    let after = tasks.update(id, TaskState::Done);
    if id == tasks.len() - 1 {
        assert(after.drop_last() =~= tasks.drop_last());
    } else {
        lemma_done_count_complete(tasks.drop_last(), id);
        assert(after.drop_last() =~= tasks.drop_last().update(id, TaskState::Done));
    }
}

/// Each accepted completion report counts one `Done` task more, so a job
/// takes `map_n + reduce_n` of them at most.
pub proof fn lemma_report_counts(s: JobState, id: int)
    requires
        s.inv(),
    ensures
        leased(s.map_tasks, id) ==> done_count(s.report_map(id).map_tasks) == done_count(
            s.map_tasks,
        ) + 1,
        leased(s.reduce_tasks, id) ==> done_count(s.report_reduce(id).reduce_tasks) == done_count(
            s.reduce_tasks,
        ) + 1,
        done_count(s.map_tasks) <= s.map_n,
        done_count(s.reduce_tasks) <= s.reduce_n,
{
    if leased(s.map_tasks, id) {
        lemma_done_count_complete(s.map_tasks, id);
    }
    if leased(s.reduce_tasks, id) {
        lemma_done_count_complete(s.reduce_tasks, id);
    }
    lemma_done_count_bound(s.map_tasks);
    lemma_done_count_bound(s.reduce_tasks);
}

/// A job that is prepared and not finished is never stuck: a request for
/// the running phase hands out a task, or finds a lease outstanding (whose
/// holder can report, or which a sweep takes back once its deadline has
/// passed), or ends the phase.
pub proof fn lemma_never_stuck(s: JobState, now: u64)
    requires
        s.inv(),
        s.prepared(),
    ensures
        s.phase == Phase::MapRunning ==> s.request_map_code() >= 0 || has_in_flight(s.map_tasks)
            || s.request_map(now).phase == Phase::ReduceRunning,
        s.phase == Phase::ReduceRunning ==> s.request_reduce_code() >= 0 || has_in_flight(
            s.reduce_tasks,
        ) || s.request_reduce(now).phase == Phase::Finished,
{
    lemma_dispatch_grew(s.map_tasks, s.map_n, now);
    lemma_dispatch_grew(s.reduce_tasks, s.reduce_n, now);
    if s.map_tasks.len() == s.map_n && has_pending(s.map_tasks) {
        lemma_lowest_pending_exists(s.map_tasks);
    }
    if s.reduce_tasks.len() == s.reduce_n && has_pending(s.reduce_tasks) {
        lemma_lowest_pending_exists(s.reduce_tasks);
    }
}

/// A sweep after the deadline of a lease leaves the task `Pending`, and a
/// request then hands a task out: the task of a worker that went silent is
/// not lost.
pub proof fn lemma_expired_task_is_dispatched_again(s: JobState, id: int, now: u64)
    requires
        s.inv(),
        s.prepared(),
        s.phase == Phase::MapRunning,
        0 <= id < s.map_tasks.len(),
        s.map_tasks[id].expired(s.lease, now as int),
    ensures
        s.sweep(now).map_tasks[id] == TaskState::Pending,
        s.sweep(now).request_map_code() >= 0,
        s.sweep(now).request_map_code() < s.map_tasks.len() ==> s.sweep(now).request_map_code()
            <= id,
{
    let swept = s.sweep(now);
    assert(swept.map_tasks[id] == TaskState::Pending);
    assert(has_pending(swept.map_tasks));
    lemma_lowest_pending_exists(swept.map_tasks);
    let low = lowest_pending(swept.map_tasks);
    if low > id {
        assert(swept.map_tasks[id] != TaskState::Pending);
    }
}

} // verus!
