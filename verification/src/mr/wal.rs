//! The write-ahead log of the coordinator: a text of lines that records the
//! task tables and the phase, and from which a coordinator that starts again
//! takes up the job.

use crate::mr::job::{JobState, Phase, TaskState};
use crate::mr::records::{parse_line, parse_record};
use crate::mr::text::{
    chars_of, decimal, decimal_string, fields, join, join_lines, split, string_of, texts,
    Separator,
};
use vstd::prelude::*;
use vstd::string::StringExecFns;

verus! {

/// How a flag stands in the log.
pub open spec fn flag(b: bool) -> Seq<char> {
    if b {
        seq!['t', 'r', 'u', 'e']
    } else {
        seq!['f', 'a', 'l', 's', 'e']
    }
}

/// The flag that a line holds.
pub open spec fn flag_of(line: Seq<char>) -> Option<bool> {
    if line == flag(true) {
        Some(true)
    } else if line == flag(false) {
        Some(false)
    } else {
        None
    }
}

pub open spec fn digit_value(c: char) -> Option<nat> {
    if 48 <= c as u32 <= 57 {
        Some((c as u32 - 48) as nat)
    } else {
        None
    }
}

/// The number that a text of decimal digits stands for.
pub open spec fn number(s: Seq<char>) -> Option<nat>
    decreases s.len(),
{
    if s.len() == 0 {
        None
    } else if s.len() == 1 {
        digit_value(s[0])
    } else {
        match (number(s.drop_last()), digit_value(s.last())) {
            (Some(n), Some(d)) => Some(n * 10 + d),
            _ => None,
        }
    }
}

/// A number that fits an `i32`.
pub open spec fn small_number(s: Seq<char>) -> Option<nat> {
    match number(s) {
        Some(n) => if n <= i32::MAX {
            Some(n)
        } else {
            None
        },
        None => None,
    }
}

/// The line of a task: its id and whether it is done.
pub open spec fn task_line(id: nat, task: TaskState) -> Seq<char> {
    decimal(id) + seq![' '] + flag(task == TaskState::Done)
}

pub open spec fn task_lines(tasks: Seq<TaskState>) -> Seq<Seq<char>> {
    Seq::new(tasks.len(), |i: int| task_line(i as nat, tasks[i]))
}

/// The ids of the tasks that hold a lease, ascending.
pub open spec fn lease_ids(tasks: Seq<TaskState>) -> Seq<nat>
    decreases tasks.len(),
{
    if tasks.len() == 0 {
        Seq::empty()
    } else if tasks.last().holds_lease() {
        lease_ids(tasks.drop_last()).push((tasks.len() - 1) as nat)
    } else {
        lease_ids(tasks.drop_last())
    }
}

pub open spec fn lease_lines(tasks: Seq<TaskState>) -> Seq<Seq<char>> {
    lease_ids(tasks).map_values(|id: nat| decimal(id))
}

/// The lines of the block of one task table: the number of tasks, a line
/// per task, and the next fresh id.
pub open spec fn table_lines(tasks: Seq<TaskState>) -> Seq<Seq<char>> {
    seq![decimal(tasks.len())] + task_lines(tasks) + seq![decimal(tasks.len())]
}

/// The lines of the leases of one task table: their number, then the ids.
pub open spec fn lease_block(tasks: Seq<TaskState>) -> Seq<Seq<char>> {
    seq![decimal(lease_ids(tasks).len())] + lease_lines(tasks)
}

/// The lines of the log of a job.
pub open spec fn wal_lines(map_tasks: Seq<TaskState>, reduce_tasks: Seq<TaskState>, phase: Phase) -> Seq<
    Seq<char>,
> {
    seq![seq!['B', 'E', 'G', 'I', 'N']] + table_lines(map_tasks) + table_lines(reduce_tasks)
        + seq![flag(phase != Phase::MapRunning), flag(phase == Phase::Finished)] + lease_block(
        map_tasks,
    ) + lease_block(reduce_tasks) + seq![seq!['E', 'N', 'D']]
}

/// What the log tells of a job: for each task whether it is done, and
/// whether each phase is over.
pub struct WalView {
    pub map_done: Seq<bool>,
    pub reduce_done: Seq<bool>,
    pub map_finish: bool,
    pub reduce_finish: bool,
}

/// What was read from a log.
pub struct WalRecord {
    pub map_done: Vec<bool>,
    pub reduce_done: Vec<bool>,
    pub map_finish: bool,
    pub reduce_finish: bool,
}

impl View for WalRecord {
    type V = WalView;

    open spec fn view(&self) -> WalView {
        WalView {
            map_done: self.map_done@,
            reduce_done: self.reduce_done@,
            map_finish: self.map_finish,
            reduce_finish: self.reduce_finish,
        }
    }
}

/// What the line of task `id` tells: whether the task is done. `None` for
/// a line of another form or of another id.
pub open spec fn task_entry(line: Seq<char>, id: nat) -> Option<bool> {
    match parse_line(line) {
        Some(pair) => if number(pair.0) == Some(id) {
            flag_of(pair.1)
        } else {
            None
        },
        None => None,
    }
}

/// The block of a task table that starts at line `at`: for each task
/// whether it is done, and the line behind the block.
pub open spec fn table_at(lines: Seq<Seq<char>>, at: int) -> Option<(Seq<bool>, int)> {
    if 0 <= at < lines.len() && small_number(lines[at]) is Some {
        let count = small_number(lines[at])->0 as int;
        if at + count + 1 < lines.len() && (forall|i: int|
            0 <= i < count ==> (#[trigger] task_entry(lines[at + 1 + i], i as nat)) is Some)
            && small_number(lines[at + 1 + count]) == Some(count as nat) {
            Some((Seq::new(count as nat, |i: int| task_entry(lines[at + 1 + i], i as nat)->0), at + count + 2))
        } else {
            None
        }
    } else {
        None
    }
}

/// The block of leases that starts at line `at` is well formed; the line
/// behind the block. Leases do not outlast the coordinator, so what the
/// block holds is passed over.
pub open spec fn leases_at(lines: Seq<Seq<char>>, at: int) -> Option<int> {
    if 0 <= at < lines.len() && small_number(lines[at]) is Some {
        let count = small_number(lines[at])->0 as int;
        if at + count < lines.len() && (forall|i: int|
            0 <= i < count ==> (#[trigger] small_number(lines[at + 1 + i])) is Some) {
            Some(at + count + 1)
        } else {
            None
        }
    } else {
        None
    }
}

/// What the lines of a log tell, or `None` where they are no log.
pub open spec fn parse_wal_lines(lines: Seq<Seq<char>>) -> Option<WalView> {
    if lines.len() > 0 && lines[0] == seq!['B', 'E', 'G', 'I', 'N'] && table_at(lines, 1) is Some {
        let (map_done, a) = table_at(lines, 1)->0;
        if table_at(lines, a) is Some {
            let (reduce_done, b) = table_at(lines, a)->0;
            if b + 1 < lines.len() && flag_of(lines[b]) is Some && flag_of(lines[b + 1]) is Some
                && leases_at(lines, b + 2) is Some {
                let c = leases_at(lines, b + 2)->0;
                if leases_at(lines, c) is Some {
                    let d = leases_at(lines, c)->0;
                    if d + 1 == lines.len() && lines[d] == seq!['E', 'N', 'D'] {
                        Some(
                            WalView {
                                map_done,
                                reduce_done,
                                map_finish: flag_of(lines[b])->0,
                                reduce_finish: flag_of(lines[b + 1])->0,
                            },
                        )
                    } else {
                        None
                    }
                } else {
                    None
                }
            } else {
                None
            }
        } else {
            None
        }
    } else {
        None
    }
}

/// What the text of a log tells; empty lines are passed over.
pub open spec fn parse_wal(text: Seq<char>) -> Option<WalView> {
    parse_wal_lines(fields(text, Separator::Newline))
}

/// The text of a flag.
fn flag_string(b: bool) -> (text: String)
    ensures
        text@ == flag(b),
{
    let mut chars: Vec<char> = Vec::new();
    if b {
        chars.push('t');
        chars.push('r');
        chars.push('u');
        chars.push('e');
    } else {
        chars.push('f');
        chars.push('a');
        chars.push('l');
        chars.push('s');
        chars.push('e');
    }
    assert(chars@ =~= flag(b));
    string_of(&chars)
}

/// Appends the lines of the block of one task table.
fn push_table(lines: &mut Vec<String>, tasks: &Vec<TaskState>)
    requires
        tasks@.len() <= i32::MAX,
    ensures
        texts(final(lines)@) == texts(old(lines)@) + table_lines(tasks@),
{
    let ghost start = texts(lines@);
    let count = decimal_string(tasks.len() as u64);
    let ghost before = lines@;
    lines.push(count);
    assert(texts(lines@) =~= start + seq![decimal(tasks@.len())]);
    let mut i: usize = 0;
    while i < tasks.len()
        invariant
            i <= tasks@.len(),
            tasks@.len() <= i32::MAX,
            texts(lines@) == start + seq![decimal(tasks@.len())] + task_lines(tasks@).take(
                i as int,
            ),
        decreases tasks@.len() - i,
    {
        let mut line = decimal_string(i as u64);
        line.append(" ");
        let done = match tasks[i] {
            TaskState::Done => true,
            _ => false,
        };
        let f = flag_string(done);
        line.append(f.as_str());
        proof {
            reveal_strlit(" ");
            assert(" "@ =~= seq![' ']);
            assert(line@ =~= task_line(i as nat, tasks@[i as int]));
        }
        let ghost prev = texts(lines@);
        lines.push(line);
        assert(texts(lines@) =~= prev.push(task_line(i as nat, tasks@[i as int])));
        assert(task_lines(tasks@).take(i + 1) =~= task_lines(tasks@).take(i as int).push(
            task_line(i as nat, tasks@[i as int]),
        ));
        i += 1;
    }
    assert(task_lines(tasks@).take(tasks@.len() as int) =~= task_lines(tasks@));
    let next = decimal_string(tasks.len() as u64);
    let ghost prev = texts(lines@);
    lines.push(next);
    assert(texts(lines@) =~= prev.push(decimal(tasks@.len())));
    assert(texts(lines@) =~= start + table_lines(tasks@));
}

/// Appends the lines of the leases of one task table.
fn push_leases(lines: &mut Vec<String>, tasks: &Vec<TaskState>)
    requires
        tasks@.len() <= i32::MAX,
    ensures
        texts(final(lines)@) == texts(old(lines)@) + lease_block(tasks@),
{
    let ghost start = texts(lines@);
    let mut ids: Vec<String> = Vec::new();
    let mut i: usize = 0;
    assert(tasks@.take(0) =~= Seq::empty());
    assert(texts(ids@) =~= lease_lines(tasks@.take(0)));
    while i < tasks.len()
        invariant
            i <= tasks@.len(),
            tasks@.len() <= i32::MAX,
            texts(ids@) == lease_lines(tasks@.take(i as int)),
            ids@.len() == lease_ids(tasks@.take(i as int)).len(),
            ids@.len() <= i,
        decreases tasks@.len() - i,
    {
        proof {
            assert(tasks@.take(i + 1).drop_last() =~= tasks@.take(i as int));
            assert(tasks@.take(i + 1).last() == tasks@[i as int]);
        }
        match tasks[i] {
            TaskState::InFlight { .. } => {
                let ghost prev = texts(ids@);
                ids.push(decimal_string(i as u64));
                assert(texts(ids@) =~= prev.push(decimal(i as nat)));
                assert(lease_lines(tasks@.take(i + 1)) =~= lease_lines(tasks@.take(i as int)).push(
                    decimal(i as nat),
                ));
            },
            _ => {},
        }
        i += 1;
    }
    assert(tasks@.take(tasks@.len() as int) =~= tasks@);
    let count = decimal_string(ids.len() as u64);
    lines.push(count);
    let ghost mid = texts(lines@);
    assert(mid =~= start + seq![decimal(lease_ids(tasks@).len())]);
    lines.append(&mut ids);
    assert(texts(lines@) =~= mid + lease_lines(tasks@));
    assert(texts(lines@) =~= start + lease_block(tasks@));
}

/// The text of the log of a job.
pub fn render_wal(map_tasks: &Vec<TaskState>, reduce_tasks: &Vec<TaskState>, phase: Phase) -> (text:
    String)
    requires
        map_tasks@.len() <= i32::MAX,
        reduce_tasks@.len() <= i32::MAX,
    ensures
        text@ == join_lines(wal_lines(map_tasks@, reduce_tasks@, phase)),
{
    let mut lines: Vec<String> = Vec::new();
    let mut begin: Vec<char> = Vec::new();
    begin.push('B');
    begin.push('E');
    begin.push('G');
    begin.push('I');
    begin.push('N');
    assert(begin@ =~= seq!['B', 'E', 'G', 'I', 'N']);
    lines.push(string_of(&begin));
    assert(texts(lines@) =~= seq![seq!['B', 'E', 'G', 'I', 'N']]);
    push_table(&mut lines, map_tasks);
    push_table(&mut lines, reduce_tasks);
    let map_finish = match phase {
        Phase::MapRunning => false,
        _ => true,
    };
    let reduce_finish = match phase {
        Phase::Finished => true,
        _ => false,
    };
    let ghost prev = texts(lines@);
    lines.push(flag_string(map_finish));
    lines.push(flag_string(reduce_finish));
    assert(texts(lines@) =~= prev + seq![
        flag(phase != Phase::MapRunning),
        flag(phase == Phase::Finished),
    ]);
    push_leases(&mut lines, map_tasks);
    push_leases(&mut lines, reduce_tasks);
    let mut end: Vec<char> = Vec::new();
    end.push('E');
    end.push('N');
    end.push('D');
    assert(end@ =~= seq!['E', 'N', 'D']);
    let ghost prev = texts(lines@);
    lines.push(string_of(&end));
    assert(texts(lines@) =~= prev + seq![seq!['E', 'N', 'D']]);
    assert(texts(lines@) =~= wal_lines(map_tasks@, reduce_tasks@, phase));
    join(&lines)
}

/// A text whose first `k` characters are no number that fits an `i32` is
/// none as a whole.
proof fn lemma_number_prefix(s: Seq<char>, k: int)
    requires
        1 <= k <= s.len(),
        small_number(s.take(k)) is None,
    ensures
        small_number(s) is None,
    decreases s.len() - k,
{
    if k < s.len() {
        assert(s.take(k + 1).drop_last() =~= s.take(k));
        lemma_number_prefix(s, k + 1);
    } else {
        assert(s.take(k) =~= s);
    }
}

/// Reads a number that fits an `i32`.
pub fn parse_number(text: &str) -> (n: Option<i32>)
    ensures
        match n {
            Some(n) => n >= 0 && small_number(text@) == Some(n as nat),
            None => small_number(text@) is None,
        },
{
    let chars = chars_of(text);
    if chars.len() == 0 {
        return None;
    }
    let mut acc: u64 = 0;
    let mut i: usize = 0;
    while i < chars.len()
        invariant
            i <= chars@.len(),
            chars@ == text@,
            acc <= i32::MAX,
            i == 0 ==> acc == 0,
            i > 0 ==> number(chars@.take(i as int)) == Some(acc as nat),
        decreases chars@.len() - i,
    {
        let u = chars[i] as u32;
        proof {
            assert(chars@.take(i + 1).drop_last() =~= chars@.take(i as int));
            assert(chars@.take(i + 1).last() == chars@[i as int]);
        }
        if u < 48 || u > 57 {
            proof {
                lemma_number_prefix(chars@, i + 1);
            }
            return None;
        }
        let next = acc * 10 + (u - 48) as u64;
        assert(number(chars@.take(i + 1)) == Some(next as nat));
        if next > 0x7fff_ffff {
            proof {
                lemma_number_prefix(chars@, i + 1);
            }
            return None;
        }
        acc = next;
        i += 1;
    }
    assert(chars@.take(chars@.len() as int) =~= chars@);
    Some(acc as i32)
}

/// Tells whether two texts hold the same characters.
pub fn same_text(a: &str, b: &str) -> (same: bool)
    ensures
        same == (a@ == b@),
{
    let x = chars_of(a);
    let y = chars_of(b);
    if x.len() != y.len() {
        return false;
    }
    let mut i: usize = 0;
    while i < x.len()
        invariant
            i <= x@.len(),
            x@.len() == y@.len(),
            x@ == a@,
            y@ == b@,
            forall|j: int| 0 <= j < i ==> x@[j] == y@[j],
        decreases x@.len() - i,
    {
        if x[i] != y[i] {
            return false;
        }
        i += 1;
    }
    assert(x@ =~= y@);
    true
}

/// Reads a flag.
pub fn parse_flag(text: &str) -> (b: Option<bool>)
    ensures
        b == flag_of(text@),
{
    proof {
        reveal_strlit("true");
        reveal_strlit("false");
        assert("true"@ =~= flag(true));
        assert("false"@ =~= flag(false));
    }
    if same_text(text, "true") {
        Some(true)
    } else if same_text(text, "false") {
        Some(false)
    } else {
        None
    }
}

/// Reads the line of task `id`.
fn parse_task(line: &str, id: i32) -> (done: Option<bool>)
    requires
        id >= 0,
    ensures
        done == task_entry(line@, id as nat),
{
    match parse_record(line) {
        Some(kv) => match parse_number(kv.key()) {
            Some(n) => if n == id {
                parse_flag(kv.value())
            } else {
                None
            },
            None => None,
        },
        None => None,
    }
}

/// Reads the block of a task table that starts at line `at`.
fn parse_table(lines: &Vec<String>, at: usize) -> (r: Option<(Vec<bool>, usize)>)
    ensures
        match r {
            Some((done, next)) => table_at(texts(lines@), at as int) == Some((done@, next as int)),
            None => table_at(texts(lines@), at as int) is None,
        },
{
    let ghost all = texts(lines@);
    if at >= lines.len() {
        return None;
    }
    assert(all[at as int] == lines@[at as int]@);
    let count = match parse_number(lines[at].as_str()) {
        Some(n) => n,
        None => {
            return None;
        },
    };
    if lines.len() - at - 1 <= count as usize {
        return None;
    }
    let mut done: Vec<bool> = Vec::new();
    let mut i: i32 = 0;
    while i < count
        invariant
            0 <= i <= count,
            all == texts(lines@),
            at + count + 1 < lines@.len(),
            lines@.len() <= usize::MAX,
            small_number(all[at as int]) == Some(count as nat),
            done@.len() == i,
            forall|j: int| 0 <= j < i ==> task_entry(all[at + 1 + j], j as nat) == Some(done@[j]),
        decreases count - i,
    {
        let at_line = at + 1 + i as usize;
        assert(all[at + 1 + i] == lines@[at_line as int]@);
        match parse_task(lines[at_line].as_str(), i) {
            Some(d) => {
                done.push(d);
            },
            None => {
                assert(task_entry(all[at + 1 + i], i as nat) is None);
                return None;
            },
        }
        i += 1;
    }
    let end = at + 1 + count as usize;
    assert(all[at + 1 + count] == lines@[end as int]@);
    match parse_number(lines[end].as_str()) {
        Some(n) => {
            if n != count {
                return None;
            }
        },
        None => {
            return None;
        },
    }
    proof {
        assert forall|j: int| 0 <= j < count implies (#[trigger] task_entry(
            all[at + 1 + j],
            j as nat,
        )) is Some by {
            assert(task_entry(all[at + 1 + j], j as nat) == Some(done@[j]));
        }
        assert(done@ =~= Seq::new(count as nat, |j: int| task_entry(all[at + 1 + j], j as nat)->0));
    }
    Some((done, end + 1))
}

/// Reads over the block of leases that starts at line `at`.
fn parse_leases(lines: &Vec<String>, at: usize) -> (r: Option<usize>)
    ensures
        match r {
            Some(next) => leases_at(texts(lines@), at as int) == Some(next as int),
            None => leases_at(texts(lines@), at as int) is None,
        },
{
    let ghost all = texts(lines@);
    if at >= lines.len() {
        return None;
    }
    assert(all[at as int] == lines@[at as int]@);
    let count = match parse_number(lines[at].as_str()) {
        Some(n) => n,
        None => {
            return None;
        },
    };
    if lines.len() - at <= count as usize {
        return None;
    }
    let mut i: i32 = 0;
    while i < count
        invariant
            0 <= i <= count,
            all == texts(lines@),
            at + count < lines@.len(),
            lines@.len() <= usize::MAX,
            small_number(all[at as int]) == Some(count as nat),
            forall|j: int| 0 <= j < i ==> (#[trigger] small_number(all[at + 1 + j])) is Some,
        decreases count - i,
    {
        let at_line = at + 1 + i as usize;
        assert(all[at + 1 + i] == lines@[at_line as int]@);
        match parse_number(lines[at_line].as_str()) {
            Some(_) => {},
            None => {
                assert(small_number(all[at + 1 + i]) is None);
                return None;
            },
        }
        i += 1;
    }
    Some(at + 1 + count as usize)
}

/// Reads a log from its lines.
pub fn read_wal_lines(lines: &Vec<String>) -> (r: Option<WalRecord>)
    ensures
        match r {
            Some(record) => parse_wal_lines(texts(lines@)) == Some(record@),
            None => parse_wal_lines(texts(lines@)) is None,
        },
{
    let ghost all = texts(lines@);
    proof {
        reveal_strlit("BEGIN");
        reveal_strlit("END");
        assert("BEGIN"@ =~= seq!['B', 'E', 'G', 'I', 'N']);
        assert("END"@ =~= seq!['E', 'N', 'D']);
    }
    if lines.len() == 0 {
        return None;
    }
    assert(all[0] == lines@[0]@);
    if !same_text(lines[0].as_str(), "BEGIN") {
        return None;
    }
    let (map_done, a) = match parse_table(lines, 1) {
        Some(r) => r,
        None => {
            return None;
        },
    };
    let (reduce_done, b) = match parse_table(lines, a) {
        Some(r) => r,
        None => {
            return None;
        },
    };
    if b >= lines.len() || lines.len() - b < 2 {
        return None;
    }
    assert(all[b as int] == lines@[b as int]@);
    assert(all[b + 1] == lines@[b + 1]@);
    let map_finish = match parse_flag(lines[b].as_str()) {
        Some(f) => f,
        None => {
            return None;
        },
    };
    let reduce_finish = match parse_flag(lines[b + 1].as_str()) {
        Some(f) => f,
        None => {
            return None;
        },
    };
    let c = match parse_leases(lines, b + 2) {
        Some(c) => c,
        None => {
            return None;
        },
    };
    let d = match parse_leases(lines, c) {
        Some(d) => d,
        None => {
            return None;
        },
    };
    if d >= lines.len() || d + 1 != lines.len() {
        return None;
    }
    assert(all[d as int] == lines@[d as int]@);
    if !same_text(lines[d].as_str(), "END") {
        return None;
    }
    Some(WalRecord { map_done, reduce_done, map_finish, reduce_finish })
}

/// Reads a log.
pub fn read_wal(text: &str) -> (r: Option<WalRecord>)
    ensures
        match r {
            Some(record) => parse_wal(text@) == Some(record@),
            None => parse_wal(text@) is None,
        },
{
    let lines = split(text, Separator::Newline);
    read_wal_lines(&lines)
}

/// Every flag of the sequence is set.
pub open spec fn all_set(done: Seq<bool>) -> bool {
    forall|i: int| 0 <= i < done.len() ==> done[i]
}

/// The log fits the job: it tells of no more tasks than the job has, and
/// of a phase as over only where all of its tasks are done.
pub open spec fn restorable(s: JobState, log: WalView) -> bool {
    &&& log.map_done.len() <= s.map_n
    &&& log.reduce_done.len() <= s.reduce_n
    &&& log.map_finish ==> log.map_done.len() == s.map_n && all_set(log.map_done)
    &&& !log.map_finish ==> log.reduce_done.len() == 0 && !log.reduce_finish
    &&& log.reduce_finish ==> log.reduce_done.len() == s.reduce_n && all_set(log.reduce_done)
}

/// The task table that a log gives back: what was done is `Done`, and
/// every other task is `Pending`, since no lease outlasts the coordinator.
pub open spec fn restored_tasks(done: Seq<bool>) -> Seq<TaskState> {
    Seq::new(
        done.len(),
        |i: int|
            if done[i] {
                TaskState::Done
            } else {
                TaskState::Pending
            },
    )
}

/// The job that a coordinator takes up from a log.
pub open spec fn restore(s: JobState, log: WalView) -> JobState {
    JobState {
        map_tasks: restored_tasks(log.map_done),
        reduce_tasks: restored_tasks(log.reduce_done),
        phase: if log.reduce_finish {
            Phase::Finished
        } else if log.map_finish {
            Phase::ReduceRunning
        } else {
            Phase::MapRunning
        },
        ..s
    }
}

/// The flags of each task of a table: whether it is done.
pub open spec fn done_flags(tasks: Seq<TaskState>) -> Seq<bool> {
    Seq::new(tasks.len(), |i: int| tasks[i] == TaskState::Done)
}

/// What the log of a job tells.
pub open spec fn log_of(s: JobState) -> WalView {
    WalView {
        map_done: done_flags(s.map_tasks),
        reduce_done: done_flags(s.reduce_tasks),
        map_finish: s.phase != Phase::MapRunning,
        reduce_finish: s.phase == Phase::Finished,
    }
}

/// A job that is taken up from a log that fits it is a valid job.
pub proof fn lemma_restore_keeps_inv(s: JobState, log: WalView)
    requires
        s.inv(),
        restorable(s, log),
    ensures
        restore(s, log).inv(),
{
}

/// Tells whether every flag is set.
pub fn all_true(done: &Vec<bool>) -> (r: bool)
    ensures
        r == all_set(done@),
{
    let mut i: usize = 0;
    while i < done.len()
        invariant
            i <= done@.len(),
            forall|j: int| 0 <= j < i ==> done@[j],
        decreases done@.len() - i,
    {
        if !done[i] {
            return false;
        }
        i += 1;
    }
    true
}

/// The task table that a log gives back.
pub fn restore_table(done: &Vec<bool>) -> (tasks: Vec<TaskState>)
    ensures
        tasks@ == restored_tasks(done@),
{
    let mut tasks: Vec<TaskState> = Vec::new();
    let mut i: usize = 0;
    while i < done.len()
        invariant
            i <= done@.len(),
            tasks@.len() == i,
            forall|j: int| 0 <= j < i ==> tasks@[j] == restored_tasks(done@)[j],
        decreases done@.len() - i,
    {
        if done[i] {
            tasks.push(TaskState::Done);
        } else {
            tasks.push(TaskState::Pending);
        }
        i += 1;
    }
    assert(tasks@ =~= restored_tasks(done@));
    tasks
}

} // verus!
