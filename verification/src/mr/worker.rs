//! The worker's record of itself, and the parts of a map task and of a
//! reduce task that compute: partitioning the records of a map task among the
//! reduce tasks, and grouping the sorted records of a reduce task by key.

use crate::mr::function::wc;
use crate::mr::job::PHASE_DONE;
use crate::mr::records::{
    groups, is_stable_sort_of, parse_all, parse_files, reduce_groups, reduced, render,
    render_records, strs, views,
};
use crate::mr::sorting::sort_by_key;
use crate::mr::text::{decimal, fields, texts, Separator};
use std::collections::hash_map::DefaultHasher;
use std::hash::Hasher;
use vstd::prelude::*;
use vstd::std_specs::hash::DefaultHasherAdditionalSpecFns;
use vstd::string::StringSliceAdditionalSpecFns;
use vstd::utf8::encode_utf8;

verus! {

/// One record: a key and a value, both text.
#[derive(Debug, Clone, PartialEq, Eq, PartialOrd, Ord)]
pub struct KeyValue {
    key: String,
    value: String,
}

impl View for KeyValue {
    type V = (Seq<char>, Seq<char>);

    closed spec fn view(&self) -> (Seq<char>, Seq<char>) {
        (self.key@, self.value@)
    }
}

impl KeyValue {
    pub fn new(key: String, value: String) -> (kv: Self)
        ensures
            kv@ == (key@, value@),
    {
        Self { key, value }
    }

    pub fn key(&self) -> (k: &str)
        ensures
            k@ == self@.0,
    {
        self.key.as_str()
    }

    pub fn value(&self) -> (v: &str)
        ensures
            v@ == self@.1,
    {
        self.value.as_str()
    }

    /// Tells whether two records have the same key.
    pub fn same_key(&self, other: &KeyValue) -> (same: bool)
        ensures
            same == (self@.0 == other@.0),
    {
        self.key == other.key
    }

    /// A second record with the same key and value.
    pub fn duplicate(&self) -> (kv: Self)
        ensures
            kv@ == self@,
    {
        Self { key: self.key.clone(), value: self.value.clone() }
    }
}

/// What a worker knows of itself.
pub struct WorkerState {
    /// `false` in the map phase, `true` in the reduce phase.
    pub state: bool,
    /// The map task in hand, or -1.
    pub map_task_id: int,
    /// The reduce task in hand, or -1.
    pub reduce_task_id: int,
    pub map_n: int,
    pub reduce_n: int,
}

/// What a worker does after the coordinator has answered its request for
/// a task.
#[derive(Clone, Copy, Debug, PartialEq, Eq, Structural)]
pub enum Action {
    /// Nothing can be had now: pause, then ask again.
    Retry,
    /// The map phase is over: pause once, then ask for reduce tasks.
    StartReduce,
    /// Do the map task of this id, then report it.
    RunMap { id: i32 },
    /// Do the reduce task of this id, then report it.
    RunReduce { id: i32 },
    /// The job is over: end.
    Exit,
}

impl WorkerState {
    /// What the worker does on the reply `code` to its request for a task
    /// of its phase: a task that was handed out is done; on `PHASE_DONE` a
    /// worker in the map phase goes on to the reduce phase and one in the
    /// reduce phase ends; on every other reply it asks again.
    pub open spec fn action_on(self, code: int) -> Action {
        if code >= 0 {
            if self.state {
                Action::RunReduce { id: code as i32 }
            } else {
                Action::RunMap { id: code as i32 }
            }
        } else if code == PHASE_DONE {
            if self.state {
                Action::Exit
            } else {
                Action::StartReduce
            }
        } else {
            Action::Retry
        }
    }

    /// The worker after the reply `code`: with the task in hand that was
    /// handed out, or in the reduce phase once the map phase is over.
    pub open spec fn after_reply(self, code: int) -> WorkerState {
        match self.action_on(code) {
            Action::RunMap { id } => WorkerState { map_task_id: id as int, ..self },
            Action::RunReduce { id } => WorkerState { reduce_task_id: id as int, ..self },
            Action::StartReduce => WorkerState { state: true, ..self },
            _ => self,
        }
    }

    /// The worker without a task in hand.
    pub open spec fn idle(self) -> WorkerState {
        WorkerState { map_task_id: -1, reduce_task_id: -1, ..self }
    }
}

/// A worker is touched by one worker process only.
pub struct Worker {
    /// The current state, `false` represents the map phase, `true` the reduce phase.
    state: bool,
    /// The map task id, which tells the input file to read; -1 while no map task is in hand.
    map_task_id: i32,
    /// The reduce task id, which tells the intermediate files to read; -1 while no reduce task is in hand.
    reduce_task_id: i32,
    /// The total of map tasks, which is the number of intermediate files that a reduce task reads.
    map_n: i32,
    /// The total of reduce tasks, which is the number of intermediate files that a map task writes.
    reduce_n: i32,
}

impl View for Worker {
    type V = WorkerState;

    closed spec fn view(&self) -> WorkerState {
        WorkerState {
            state: self.state,
            map_task_id: self.map_task_id as int,
            reduce_task_id: self.reduce_task_id as int,
            map_n: self.map_n as int,
            reduce_n: self.reduce_n as int,
        }
    }
}

/// Calls the user-defined map function.
pub fn call_map_func<F: Fn(&str) -> Vec<KeyValue>>(map_func: F, contents: &str) -> (records: Vec<
    KeyValue,
>)
    requires
        call_requires(map_func, (contents,)),
    ensures
        call_ensures(map_func, (contents,), records),
{
    map_func(contents)
}

/// Calls the user-defined reduce function.
pub fn call_reduce_func<'a, F: Fn(&str, Vec<&'a str>) -> String>(
    reduce_func: F,
    key: &str,
    value: Vec<&'a str>,
) -> (result: String)
    requires
        call_requires(reduce_func, (key, value)),
    ensures
        call_ensures(reduce_func, (key, value), result),
{
    reduce_func(key, value)
}

/// The hash of a key: that of the default hasher in its initial state, fed
/// the bytes of the key and then the byte 0xff. It is the same in every
/// process.
pub open spec fn key_hash(key: Seq<char>) -> u64 {
    DefaultHasher::spec_finish(seq![encode_utf8(key), seq![0xffu8]])
}

/// The reduce task, of `n`, that the records of a key go to.
pub open spec fn bucket_index(key: Seq<char>, n: int) -> int
    recommends
        n > 0,
{
    key_hash(key) as int % n
}

/// Tells whether a record goes to reduce task `j` of `n`.
pub open spec fn in_bucket(n: int, j: int) -> spec_fn((Seq<char>, Seq<char>)) -> bool {
    |r: (Seq<char>, Seq<char>)| bucket_index(r.0, n) == j
}

/// The records that go to reduce task `j` of `n`, in the order in which
/// they stand.
pub open spec fn bucket(records: Seq<(Seq<char>, Seq<char>)>, n: int, j: int) -> Seq<
    (Seq<char>, Seq<char>),
> {
    records.filter(in_bucket(n, j))
}

/// Splits the records of a map task among `reduce_n` reduce tasks: record
/// by record, in order, each to the task that its key hashes to.
pub fn partition(records: &Vec<KeyValue>, reduce_n: i32) -> (buckets: Vec<Vec<KeyValue>>)
    requires
        reduce_n > 0,
    ensures
        buckets@.len() == reduce_n,
        forall|j: int|
            0 <= j < reduce_n ==> views(#[trigger] buckets@[j]@) == bucket(
                views(records@),
                reduce_n as int,
                j,
            ),
{
    let mut buckets: Vec<Vec<KeyValue>> = Vec::new();
    let mut j: i32 = 0;
    while j < reduce_n
        invariant
            0 <= j <= reduce_n,
            buckets@.len() == j,
            forall|k: int| 0 <= k < j ==> (#[trigger] buckets@[k])@.len() == 0,
        decreases reduce_n - j,
    {
        buckets.push(Vec::new());
        j += 1;
    }
    let mut i: usize = 0;
    assert(records@.take(0) =~= Seq::empty());
    assert forall|k: int| 0 <= k < reduce_n implies views(#[trigger] buckets@[k]@) == bucket(
        views(records@.take(0)),
        reduce_n as int,
        k,
    ) by {
        assert(views(buckets@[k]@) =~= Seq::empty());
        assert(views(records@.take(0)) =~= Seq::empty());
    }
    while i < records.len()
        invariant
            reduce_n > 0,
            i <= records@.len(),
            buckets@.len() == reduce_n,
            forall|k: int|
                0 <= k < reduce_n ==> views(#[trigger] buckets@[k]@) == bucket(
                    views(records@.take(i as int)),
                    reduce_n as int,
                    k,
                ),
        decreases records@.len() - i,
    {
        let kv = records[i].duplicate();
        let index = (Worker::cal_hash_for_key(kv.key()) % (reduce_n as u64)) as usize;
        let ghost before = buckets@;
        let ghost seen = views(records@.take(i as int));
        buckets[index].push(kv);
        proof {
            assert(records@.take(i + 1) =~= records@.take(i as int).push(records@[i as int]));
            assert(views(records@.take(i + 1)) =~= seen.push(kv@));
            assert forall|k: int| 0 <= k < reduce_n implies views(#[trigger] buckets@[k]@)
                == bucket(views(records@.take(i + 1)), reduce_n as int, k) by {
                seen.lemma_filter_push(kv@, in_bucket(reduce_n as int, k));
                if k == index {
                    assert(views(buckets@[k]@) =~= views(before[k]@).push(kv@));
                } else {
                    assert(buckets@[k] == before[k]);
                }
            }
        }
        i += 1;
    }
    assert(records@.take(records@.len() as int) =~= records@);
    buckets
}

/// The texts of the intermediate files of a map task: for each reduce task
/// of `reduce_n`, the lines of the records that go to it.
pub fn intermediate_texts(records: &Vec<KeyValue>, reduce_n: i32) -> (files: Vec<String>)
    requires
        reduce_n > 0,
    ensures
        files@.len() == reduce_n,
        forall|j: int|
            0 <= j < reduce_n ==> (#[trigger] files@[j])@ == render(
                bucket(views(records@), reduce_n as int, j),
            ),
{
    let buckets = partition(records, reduce_n);
    let mut files: Vec<String> = Vec::new();
    let mut j: usize = 0;
    while j < buckets.len()
        invariant
            j <= buckets@.len(),
            buckets@.len() == reduce_n,
            files@.len() == j,
            forall|k: int|
                0 <= k < reduce_n ==> views(#[trigger] buckets@[k]@) == bucket(
                    views(records@),
                    reduce_n as int,
                    k,
                ),
            forall|k: int|
                0 <= k < j ==> (#[trigger] files@[k])@ == render(
                    bucket(views(records@), reduce_n as int, k),
                ),
        decreases buckets@.len() - j,
    {
        assert(views(buckets@[j as int]@) == bucket(views(records@), reduce_n as int, j as int));
        files.push(render_records(&buckets[j]));
        j += 1;
    }
    files
}

/// What word count makes of each group: its key, and the number of its
/// values in decimal.
pub open spec fn counts(groups: Seq<(Seq<char>, Seq<Seq<char>>)>) -> Seq<(Seq<char>, Seq<char>)> {
    groups.map_values(|g: (Seq<char>, Seq<Seq<char>>)| (g.0, decimal(g.1.len())))
}

/// `text` is the output of a reduce task on `records`: the records are
/// sorted by key, and each key stands on one line with the number of its
/// records.
pub open spec fn is_reduce_output(records: Seq<(Seq<char>, Seq<char>)>, text: Seq<char>) -> bool {
    exists|sorted: Seq<(Seq<char>, Seq<char>)>| #[trigger]
        is_stable_sort_of(sorted, records) && text == render(counts(groups(sorted)))
}

impl Worker {
    pub fn new(map_n: i32, reduce_n: i32) -> (w: Self)
        ensures
            w@ == (WorkerState {
                state: false,
                map_task_id: -1,
                reduce_task_id: -1,
                map_n: map_n as int,
                reduce_n: reduce_n as int,
            }),
    {
        Self { state: false, map_task_id: -1, reduce_task_id: -1, map_n, reduce_n }
    }

    pub fn get_state(&self) -> (state: bool)
        ensures
            state == self@.state,
    {
        self.state
    }

    /// Changes the state from the map phase to the reduce phase. For a
    /// worker in the map phase only.
    pub fn change_state(&mut self)
        requires
            !old(self)@.state,
        ensures
            final(self)@ == (WorkerState { state: true, ..old(self)@ }),
    {
        self.state = true;
    }

    pub fn get_map_id(&self) -> (id: i32)
        ensures
            id == self@.map_task_id,
    {
        self.map_task_id
    }

    pub fn set_map_id(&mut self, map_task_id: i32)
        ensures
            final(self)@ == (WorkerState { map_task_id: map_task_id as int, ..old(self)@ }),
    {
        self.map_task_id = map_task_id;
    }

    pub fn get_reduce_id(&self) -> (id: i32)
        ensures
            id == self@.reduce_task_id,
    {
        self.reduce_task_id
    }

    pub fn set_reduce_id(&mut self, reduce_task_id: i32)
        ensures
            final(self)@ == (WorkerState { reduce_task_id: reduce_task_id as int, ..old(self)@ }),
    {
        self.reduce_task_id = reduce_task_id;
    }

    /// Does the map task in hand on the contents of its input file: the
    /// texts of the intermediate files, one per reduce task, in the order of
    /// the reduce tasks. Afterwards no map task is in hand. `None`, and
    /// nothing done, where the punctuation of the input cannot be taken out.
    pub fn map(&mut self, contents: &str) -> (files: Option<Vec<String>>)
        requires
            !old(self)@.state,
            old(self)@.map_task_id != -1,
            old(self)@.reduce_n > 0,
        ensures
            files is Some <==> wc::stripped(contents@) is Some,
            files is None ==> final(self)@ == old(self)@,
            files is Some ==> final(self)@ == (WorkerState { map_task_id: -1, ..old(self)@ }),
            files is Some ==> files->0@.len() == old(self)@.reduce_n,
            files is Some ==> forall|j: int|
                0 <= j < old(self)@.reduce_n ==> (#[trigger] files->0@[j])@ == render(
                    bucket(
                        wc::word_pairs(
                            fields(wc::stripped(contents@)->0, Separator::Whitespace),
                        ),
                        old(self)@.reduce_n,
                        j,
                    ),
                ),
    {
        if !wc::strips(contents) {
            return None;
        }
        let records = call_map_func(wc::map, contents);
        let files = intermediate_texts(&records, self.reduce_n);
        self.set_map_id(-1);
        Some(files)
    }

    /// Does the reduce task in hand on the contents of its intermediate
    /// files: the text of the output file. Afterwards no reduce task is in
    /// hand. `None`, and nothing done, where a line of a file holds no record.
    pub fn reduce(&mut self, intermediates: &Vec<String>) -> (output: Option<String>)
        requires
            old(self)@.state,
            old(self)@.map_task_id == -1,
            old(self)@.reduce_task_id != -1,
        ensures
            output is Some <==> parse_all(texts(intermediates@)) is Some,
            output is None ==> final(self)@ == old(self)@,
            output is Some ==> final(self)@ == (WorkerState { reduce_task_id: -1, ..old(self)@ }),
            output is Some ==> is_reduce_output(parse_all(texts(intermediates@))->0, output->0@),
    {
        let mut records = match parse_files(intermediates) {
            Some(records) => records,
            None => {
                return None;
            },
        };
        let ghost read = views(records@);
        sort_by_key(&mut records);
        let reduced_records = reduce_groups(&records, &wc::reduce);
        proof {
            let runs = groups(views(records@));
            assert forall|k: int| 0 <= k < runs.len() implies (#[trigger] reduced_records@[k])@ == (
                runs[k].0,
                decimal(runs[k].1.len()),
            ) by {
                assert(reduced(wc::reduce, runs[k], reduced_records@[k]@.1));
                let (key, values, out): (&str, Vec<&str>, String) = choose|
                    key: &str,
                    values: Vec<&str>,
                    out: String,
                |
                    key@ == runs[k].0 && strs(values@) == runs[k].1 && out@ == reduced_records@[k]@.1
                        && #[trigger] call_ensures(wc::reduce, (key, values), out);
                assert(strs(values@).len() == values@.len());
            }
            assert(views(reduced_records@) =~= counts(runs));
            assert(is_stable_sort_of(views(records@), read));
        }
        let text = render_records(&reduced_records);
        self.set_reduce_id(-1);
        Some(text)
    }

    /// Takes the coordinator's reply to a request for a task of the
    /// worker's phase, and tells what to do next.
    pub fn on_reply(&mut self, code: i32) -> (action: Action)
        ensures
            action == old(self)@.action_on(code as int),
            final(self)@ == old(self)@.after_reply(code as int),
    {
        if code >= 0 {
            if self.state {
                self.reduce_task_id = code;
                Action::RunReduce { id: code }
            } else {
                self.map_task_id = code;
                Action::RunMap { id: code }
            }
        } else if code == PHASE_DONE {
            if self.state {
                Action::Exit
            } else {
                self.state = true;
                Action::StartReduce
            }
        } else {
            Action::Retry
        }
    }

    /// Takes the coordinator's reply to the renewal of the lease of the
    /// task in hand. Where the lease is gone the task is given up: the
    /// worker has no task in hand and `false` comes back.
    pub fn on_renewal(&mut self, renewed: bool) -> (go_on: bool)
        ensures
            go_on == renewed,
            renewed ==> final(self)@ == old(self)@,
            !renewed ==> final(self)@ == old(self)@.idle(),
    {
        if !renewed {
            self.map_task_id = -1;
            self.reduce_task_id = -1;
        }
        renewed
    }

    /// The hash by which records are split among the reduce tasks.
    pub fn cal_hash_for_key(key: &str) -> (hash: u64)
        ensures
            hash == key_hash(key@),
    {
        let mut s = DefaultHasher::new();
        s.write(key.as_bytes());
        let end: [u8; 1] = [0xff];
        s.write(end.as_slice());
        proof {
            broadcast use vstd::array::group_array_axioms;

            assert(end@ =~= seq![0xffu8]);
            assert(s@ =~= seq![key.spec_bytes(), seq![0xffu8]]);
        }
        s.finish()
    }
}

} // verus!
