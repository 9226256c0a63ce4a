//! What holds of the write-ahead log: a log that was written is read back
//! as what it was written from.

use crate::mr::job::{JobState, Phase, TaskState};
use crate::mr::records::splits_at;
use crate::mr::text::{decimal, digit, is_line, join_lines, lemma_fields_of_joined};
use crate::mr::wal::{
    done_flags, flag, flag_of, lease_block, lease_ids, lease_lines, leases_at,
    log_of, number, parse_wal, parse_wal_lines, restorable, restore, restored_tasks,
    small_number, table_at, table_lines, task_entry, task_line, wal_lines, WalView,
};
use vstd::prelude::*;

verus! {

/// A text of decimal digits only, and of one at least.
pub open spec fn is_digits(s: Seq<char>) -> bool {
    s.len() > 0 && forall|i: int| 0 <= i < s.len() ==> 48 <= (#[trigger] s[i]) as u32 <= 57
}

/// A number in decimal is read back as that number.
pub proof fn lemma_number_of_decimal(n: nat)
    ensures
        is_digits(decimal(n)),
        number(decimal(n)) == Some(n),
    decreases n,
{
    if n < 10 {
        assert(digit(n) as u32 == 48 + n);
    } else {
        lemma_number_of_decimal(n / 10);
        let d = n % 10;
        assert(digit(d) as u32 == 48 + d);
        assert(decimal(n).drop_last() =~= decimal(n / 10));
        assert(decimal(n).last() == digit(d));
    }
}

/// The line of a task is read back as the task's id and whether it is done.
pub proof fn lemma_task_line(id: nat, task: TaskState)
    ensures
        task_entry(task_line(id, task), id) == Some(task == TaskState::Done),
        is_line(task_line(id, task)),
{
    lemma_number_of_decimal(id);
    let line = task_line(id, task);
    let d = decimal(id);
    let f = flag(task == TaskState::Done);
    let at = d.len() as int;
    assert forall|j: int| 0 <= j < line.len() && j != at implies line[j] != ' ' by {
        if j < at {
            assert(line[j] == d[j]);
        } else {
            assert(line[j] == f[j - at - 1]);
        }
    }
    assert(line[at] == ' ');
    assert(splits_at(line, at));
    let k = choose|k: int| splits_at(line, k);
    assert(k == at);
    assert(line.take(at) =~= d);
    assert(line.skip(at + 1) =~= f);
    assert(flag(true).len() == 4 && flag(false).len() == 5);
    assert forall|i: int| 0 <= i < line.len() implies line[i] != '\n' by {
        if i < at {
            assert(line[i] == d[i]);
        } else if i > at {
            assert(line[i] == f[i - at - 1]);
        }
    }
}

/// The block of a task table, wherever it stands among the lines, is read
/// back as the table's tasks.
pub proof fn lemma_table_at(pre: Seq<Seq<char>>, tasks: Seq<TaskState>, post: Seq<Seq<char>>)
    requires
        tasks.len() <= i32::MAX,
        post.len() >= 1,
    ensures
        table_at(pre + table_lines(tasks) + post, pre.len() as int) == Some(
            (
                done_flags(tasks),
                pre.len() as int + tasks.len() + 2,
            ),
        ),
{
    let lines = pre + table_lines(tasks) + post;
    let at = pre.len() as int;
    let count = tasks.len() as int;
    lemma_number_of_decimal(tasks.len());
    assert(lines[at] == decimal(tasks.len()));
    assert(lines[at + 1 + count] == decimal(tasks.len()));
    assert forall|i: int| 0 <= i < count implies #[trigger] task_entry(lines[at + 1 + i], i as nat)
        == Some(tasks[i] == TaskState::Done) by {
        assert(lines[at + 1 + i] == task_line(i as nat, tasks[i]));
        lemma_task_line(i as nat, tasks[i]);
    }
    assert(Seq::new(count as nat, |i: int| task_entry(lines[at + 1 + i], i as nat)->0)
        =~= done_flags(tasks));
}

/// The ids of the leases of a table are ids of its tasks.
pub proof fn lemma_lease_ids_bounded(tasks: Seq<TaskState>)
    ensures
        lease_ids(tasks).len() <= tasks.len(),
        forall|i: int| 0 <= i < lease_ids(tasks).len() ==> (#[trigger] lease_ids(tasks)[i]) < tasks.len(),
    decreases tasks.len(),
{
    if tasks.len() > 0 {
        lemma_lease_ids_bounded(tasks.drop_last());
    }
}

/// The block of the leases of a table, wherever it stands among the lines,
/// is well formed.
pub proof fn lemma_leases_at(pre: Seq<Seq<char>>, tasks: Seq<TaskState>, post: Seq<Seq<char>>)
    requires
        tasks.len() <= i32::MAX,
        post.len() >= 1,
    ensures
        leases_at(pre + lease_block(tasks) + post, pre.len() as int) == Some(
            pre.len() as int + lease_ids(tasks).len() + 1,
        ),
{
    let lines = pre + lease_block(tasks) + post;
    let at = pre.len() as int;
    let ids = lease_ids(tasks);
    lemma_lease_ids_bounded(tasks);
    lemma_number_of_decimal(ids.len());
    assert(lines[at] == decimal(ids.len()));
    assert forall|i: int| 0 <= i < ids.len() implies (#[trigger] small_number(lines[at + 1 + i]))
        is Some by {
        assert(lines[at + 1 + i] == lease_lines(tasks)[i]);
        assert(lease_lines(tasks)[i] == decimal(ids[i]));
        lemma_number_of_decimal(ids[i]);
    }
}

/// The line at which the block of the reduce tasks starts.
pub open spec fn reduce_block_at(map_tasks: Seq<TaskState>) -> int {
    3 + map_tasks.len() as int
}

/// The line at which the flags of the phases start.
pub open spec fn flags_at(map_tasks: Seq<TaskState>, reduce_tasks: Seq<TaskState>) -> int {
    5 + map_tasks.len() as int + reduce_tasks.len() as int
}

/// The line at which the leases of the reduce tasks start.
pub open spec fn reduce_leases_at(map_tasks: Seq<TaskState>, reduce_tasks: Seq<TaskState>) -> int {
    flags_at(map_tasks, reduce_tasks) + 3 + lease_ids(map_tasks).len()
}

/// The last line.
pub open spec fn end_at(map_tasks: Seq<TaskState>, reduce_tasks: Seq<TaskState>) -> int {
    reduce_leases_at(map_tasks, reduce_tasks) + 1 + lease_ids(reduce_tasks).len()
}

proof fn lemma_wal_map_table(map_tasks: Seq<TaskState>, reduce_tasks: Seq<TaskState>, phase: Phase)
    requires
        map_tasks.len() <= i32::MAX,
    ensures
        table_at(wal_lines(map_tasks, reduce_tasks, phase), 1) == Some(
            (done_flags(map_tasks), reduce_block_at(map_tasks)),
        ),
{
    let lines = wal_lines(map_tasks, reduce_tasks, phase);
    let begin = seq![seq!['B', 'E', 'G', 'I', 'N']];
    let rest = table_lines(reduce_tasks) + seq![
        flag(phase != Phase::MapRunning),
        flag(phase == Phase::Finished),
    ] + lease_block(map_tasks) + lease_block(reduce_tasks) + seq![
        seq!['E', 'N', 'D'],
    ];
    assert(lines =~= begin + table_lines(map_tasks) + rest);
    lemma_table_at(begin, map_tasks, rest);
}

proof fn lemma_wal_reduce_table(
    map_tasks: Seq<TaskState>,
    reduce_tasks: Seq<TaskState>,
    phase: Phase,
)
    requires
        reduce_tasks.len() <= i32::MAX,
    ensures
        table_at(wal_lines(map_tasks, reduce_tasks, phase), reduce_block_at(map_tasks)) == Some(
            (done_flags(reduce_tasks), flags_at(map_tasks, reduce_tasks)),
        ),
{
    let lines = wal_lines(map_tasks, reduce_tasks, phase);
    let pre = seq![seq!['B', 'E', 'G', 'I', 'N']] + table_lines(map_tasks);
    let rest = seq![flag(phase != Phase::MapRunning), flag(phase == Phase::Finished)]
        + lease_block(map_tasks) + lease_block(reduce_tasks) + seq![seq!['E', 'N', 'D']];
    assert(lines =~= pre + table_lines(reduce_tasks) + rest);
    lemma_table_at(pre, reduce_tasks, rest);
}

proof fn lemma_wal_map_leases(
    map_tasks: Seq<TaskState>,
    reduce_tasks: Seq<TaskState>,
    phase: Phase,
)
    requires
        map_tasks.len() <= i32::MAX,
    ensures
        leases_at(wal_lines(map_tasks, reduce_tasks, phase), flags_at(map_tasks, reduce_tasks) + 2)
            == Some(reduce_leases_at(map_tasks, reduce_tasks)),
{
    let lines = wal_lines(map_tasks, reduce_tasks, phase);
    let pre = seq![seq!['B', 'E', 'G', 'I', 'N']] + table_lines(map_tasks) + table_lines(
        reduce_tasks,
    ) + seq![flag(phase != Phase::MapRunning), flag(phase == Phase::Finished)];
    let rest = lease_block(reduce_tasks) + seq![seq!['E', 'N', 'D']];
    assert(lines =~= pre + lease_block(map_tasks) + rest);
    lemma_leases_at(pre, map_tasks, rest);
}

proof fn lemma_wal_reduce_leases(
    map_tasks: Seq<TaskState>,
    reduce_tasks: Seq<TaskState>,
    phase: Phase,
)
    requires
        reduce_tasks.len() <= i32::MAX,
    ensures
        leases_at(
            wal_lines(map_tasks, reduce_tasks, phase),
            reduce_leases_at(map_tasks, reduce_tasks),
        ) == Some(end_at(map_tasks, reduce_tasks)),
{
    let lines = wal_lines(map_tasks, reduce_tasks, phase);
    let pre = seq![seq!['B', 'E', 'G', 'I', 'N']] + table_lines(map_tasks) + table_lines(
        reduce_tasks,
    ) + seq![flag(phase != Phase::MapRunning), flag(phase == Phase::Finished)] + lease_block(
        map_tasks,
    );
    let rest = seq![seq!['E', 'N', 'D']];
    assert(lines =~= pre + lease_block(reduce_tasks) + rest);
    lemma_leases_at(pre, reduce_tasks, rest);
}

proof fn lemma_wal_marks(map_tasks: Seq<TaskState>, reduce_tasks: Seq<TaskState>, phase: Phase)
    ensures
        ({
            let lines = wal_lines(map_tasks, reduce_tasks, phase);
            let b = flags_at(map_tasks, reduce_tasks);
            let d = end_at(map_tasks, reduce_tasks);
            &&& lines.len() == d + 1
            &&& lines[0] == seq!['B', 'E', 'G', 'I', 'N']
            &&& lines[d] == seq!['E', 'N', 'D']
            &&& lines[b] == flag(phase != Phase::MapRunning)
            &&& lines[b + 1] == flag(phase == Phase::Finished)
        }),
{
}

proof fn lemma_flag_of_flag(b: bool)
    ensures
        flag_of(flag(b)) == Some(b),
{
    assert(flag(true).len() == 4 && flag(false).len() == 5);
}

/// The lines of the log of a job are read back as what the log tells.
pub proof fn lemma_wal_lines_round_trip(
    map_tasks: Seq<TaskState>,
    reduce_tasks: Seq<TaskState>,
    phase: Phase,
)
    requires
        map_tasks.len() <= i32::MAX,
        reduce_tasks.len() <= i32::MAX,
    ensures
        parse_wal_lines(wal_lines(map_tasks, reduce_tasks, phase)) == Some(
            WalView {
                map_done: done_flags(map_tasks),
                reduce_done: done_flags(reduce_tasks),
                map_finish: phase != Phase::MapRunning,
                reduce_finish: phase == Phase::Finished,
            },
        ),
{
    lemma_wal_map_table(map_tasks, reduce_tasks, phase);
    lemma_wal_reduce_table(map_tasks, reduce_tasks, phase);
    lemma_wal_map_leases(map_tasks, reduce_tasks, phase);
    lemma_wal_reduce_leases(map_tasks, reduce_tasks, phase);
    lemma_wal_marks(map_tasks, reduce_tasks, phase);
    lemma_flag_of_flag(phase != Phase::MapRunning);
    lemma_flag_of_flag(phase == Phase::Finished);
    lemma_parse_from_parts(
        wal_lines(map_tasks, reduce_tasks, phase),
        done_flags(map_tasks),
        reduce_block_at(map_tasks),
        done_flags(reduce_tasks),
        flags_at(map_tasks, reduce_tasks),
        reduce_leases_at(map_tasks, reduce_tasks),
        end_at(map_tasks, reduce_tasks),
        phase != Phase::MapRunning,
        phase == Phase::Finished,
    );
}

/// Lines whose blocks are well formed are a log.
proof fn lemma_parse_from_parts(
    lines: Seq<Seq<char>>,
    map_done: Seq<bool>,
    a: int,
    reduce_done: Seq<bool>,
    b: int,
    c: int,
    d: int,
    map_finish: bool,
    reduce_finish: bool,
)
    requires
        lines.len() > 0,
        lines[0] == seq!['B', 'E', 'G', 'I', 'N'],
        table_at(lines, 1) == Some((map_done, a)),
        table_at(lines, a) == Some((reduce_done, b)),
        b + 1 < lines.len(),
        flag_of(lines[b]) == Some(map_finish),
        flag_of(lines[b + 1]) == Some(reduce_finish),
        leases_at(lines, b + 2) == Some(c),
        leases_at(lines, c) == Some(d),
        d + 1 == lines.len(),
        lines[d] == seq!['E', 'N', 'D'],
    ensures
        parse_wal_lines(lines) == Some(
            WalView { map_done, reduce_done, map_finish, reduce_finish },
        ),
{
}

/// Every line of the log of a job is a line.
pub proof fn lemma_wal_lines_are_lines(
    map_tasks: Seq<TaskState>,
    reduce_tasks: Seq<TaskState>,
    phase: Phase,
)
    ensures
        forall|i: int|
            0 <= i < wal_lines(map_tasks, reduce_tasks, phase).len() ==> is_line(
                #[trigger] wal_lines(map_tasks, reduce_tasks, phase)[i],
            ),
{
    let lines = wal_lines(map_tasks, reduce_tasks, phase);
    assert forall|i: int| 0 <= i < lines.len() implies is_line(#[trigger] lines[i]) by {
        lemma_block_lines(map_tasks);
        lemma_block_lines(reduce_tasks);
        let begin = seq![seq!['B', 'E', 'G', 'I', 'N']];
        let t1 = table_lines(map_tasks);
        let t2 = table_lines(reduce_tasks);
        let flags = seq![flag(phase != Phase::MapRunning), flag(phase == Phase::Finished)];
        let b1 = lease_block(map_tasks);
        let b2 = lease_block(reduce_tasks);
        let end = seq![seq!['E', 'N', 'D']];
        assert(is_line(begin[0]));
        assert(is_line(end[0]));
        assert(is_line(flag(true)) && is_line(flag(false)));
        if i < 1 {
            assert(lines[i] == begin[0]);
        } else if i < 1 + t1.len() {
            assert(lines[i] == t1[i - 1]);
        } else if i < 1 + t1.len() + t2.len() {
            assert(lines[i] == t2[i - 1 - t1.len()]);
        } else if i < 1 + t1.len() + t2.len() + 2 {
            assert(lines[i] == flags[i - 1 - t1.len() - t2.len()]);
        } else if i < 1 + t1.len() + t2.len() + 2 + b1.len() {
            assert(lines[i] == b1[i - 3 - t1.len() - t2.len()]);
        } else if i < 1 + t1.len() + t2.len() + 2 + b1.len() + b2.len() {
            assert(lines[i] == b2[i - 3 - t1.len() - t2.len() - b1.len()]);
        } else {
            assert(lines[i] == end[0]);
        }
    }
}

proof fn lemma_digits_are_line(n: nat)
    ensures
        is_line(decimal(n)),
{
    lemma_number_of_decimal(n);
    let d = decimal(n);
    assert forall|i: int| 0 <= i < d.len() implies d[i] != '\n' by {
        assert(48 <= d[i] as u32);
    }
}

proof fn lemma_block_lines(tasks: Seq<TaskState>)
    ensures
        forall|i: int| 0 <= i < table_lines(tasks).len() ==> is_line(#[trigger] table_lines(tasks)[i]),
        forall|i: int| 0 <= i < lease_block(tasks).len() ==> is_line(#[trigger] lease_block(tasks)[i]),
{
    let t = table_lines(tasks);
    lemma_digits_are_line(tasks.len());
    assert forall|i: int| 0 <= i < t.len() implies is_line(#[trigger] t[i]) by {
        if 1 <= i <= tasks.len() {
            assert(t[i] == task_line((i - 1) as nat, tasks[i - 1]));
            lemma_task_line((i - 1) as nat, tasks[i - 1]);
        }
    }
    let b = lease_block(tasks);
    lemma_digits_are_line(lease_ids(tasks).len());
    assert forall|i: int| 0 <= i < b.len() implies is_line(#[trigger] b[i]) by {
        if 1 <= i {
            assert(b[i] == decimal(lease_ids(tasks)[i - 1]));
            lemma_digits_are_line(lease_ids(tasks)[i - 1]);
        }
    }
}

/// The job after its coordinator started again: what was done is done,
/// and every other task that was dispatched is `Pending`.
pub open spec fn after_restart(s: JobState) -> JobState {
    JobState {
        map_tasks: Seq::new(
            s.map_tasks.len(),
            |i: int|
                if s.map_tasks[i] == TaskState::Done {
                    TaskState::Done
                } else {
                    TaskState::Pending
                },
        ),
        reduce_tasks: Seq::new(
            s.reduce_tasks.len(),
            |i: int|
                if s.reduce_tasks[i] == TaskState::Done {
                    TaskState::Done
                } else {
                    TaskState::Pending
                },
        ),
        ..s
    }
}

/// The log of a valid job is read back as what it tells of the job, fits
/// the job, and gives the job back as it is after a restart.
pub proof fn lemma_wal_round_trip(s: JobState)
    requires
        s.inv(),
    ensures
        parse_wal(join_lines(wal_lines(s.map_tasks, s.reduce_tasks, s.phase))) == Some(log_of(s)),
        restorable(s, log_of(s)),
        restore(s, log_of(s)) == after_restart(s),
{
    lemma_wal_lines_are_lines(s.map_tasks, s.reduce_tasks, s.phase);
    lemma_fields_of_joined(wal_lines(s.map_tasks, s.reduce_tasks, s.phase));
    lemma_wal_lines_round_trip(s.map_tasks, s.reduce_tasks, s.phase);
    assert(restored_tasks(log_of(s).map_done) =~= after_restart(s).map_tasks);
    assert(restored_tasks(log_of(s).reduce_done) =~= after_restart(s).reduce_tasks);
}

} // verus!
