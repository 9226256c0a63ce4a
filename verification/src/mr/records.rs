//! Records as they stand in the intermediate and output texts, one
//! `KEY VALUE` line each: writing them, reading them back, and grouping
//! them by key.

use crate::mr::text::{chars_of, fields, split, string_of, texts, Separator};
use crate::mr::worker::{call_reduce_func, KeyValue};
use vstd::prelude::*;
use vstd::string::StringExecFns;

verus! {

/// The key and the value of each record of a sequence.
pub open spec fn views(records: Seq<KeyValue>) -> Seq<(Seq<char>, Seq<char>)> {
    records.map_values(|kv: KeyValue| kv@)
}

/// The line of one record: the key, a space, the value, a line feed.
pub open spec fn render_record(record: (Seq<char>, Seq<char>)) -> Seq<char> {
    record.0 + seq![' '] + record.1 + seq!['\n']
}

/// The lines of the records, one after the other.
pub open spec fn render(records: Seq<(Seq<char>, Seq<char>)>) -> Seq<char>
    decreases records.len(),
{
    if records.len() == 0 {
        Seq::empty()
    } else {
        render(records.drop_last()) + render_record(records.last())
    }
}

/// Writes the records as text, one line each.
pub fn render_records(records: &Vec<KeyValue>) -> (text: String)
    ensures
        text@ == render(views(records@)),
{
    let mut text = String::new();
    let mut i: usize = 0;
    assert(views(records@.take(0)) =~= Seq::empty());
    while i < records.len()
        invariant
            i <= records@.len(),
            text@ == render(views(records@.take(i as int))),
        decreases records@.len() - i,
    {
        let kv = &records[i];
        let ghost before = text@;
        text.append(kv.key());
        text.append(" ");
        text.append(kv.value());
        text.append("\n");
        proof {
            reveal_strlit(" ");
            reveal_strlit("\n");
            assert(" "@ =~= seq![' ']);
            assert("\n"@ =~= seq!['\n']);
            let seen = views(records@.take(i + 1));
            assert(seen.drop_last() =~= views(records@.take(i as int)));
            assert(seen.last() == kv@);
            assert(text@ =~= before + render_record(kv@));
        }
        i += 1;
    }
    assert(records@.take(records@.len() as int) =~= records@);
    text
}

/// The line has exactly one space, and it stands at `i`.
pub open spec fn splits_at(line: Seq<char>, i: int) -> bool {
    &&& 0 <= i < line.len()
    &&& line[i] == ' '
    &&& forall|j: int| 0 <= j < line.len() && j != i ==> line[j] != ' '
}

/// The record of a line: what stands before its one space, and what stands
/// behind it. A line without a space, or with several, holds no record.
pub open spec fn parse_line(line: Seq<char>) -> Option<(Seq<char>, Seq<char>)> {
    if exists|i: int| splits_at(line, i) {
        let i = choose|i: int| splits_at(line, i);
        Some((line.take(i), line.skip(i + 1)))
    } else {
        None
    }
}

/// Every line holds a record.
pub open spec fn all_parse(lines: Seq<Seq<char>>) -> bool {
    forall|i: int| 0 <= i < lines.len() ==> (#[trigger] parse_line(lines[i])) is Some
}

/// The records of a text, line by line; empty lines are passed over. `None`
/// where a line that is not empty holds no record.
pub open spec fn parse(text: Seq<char>) -> Option<Seq<(Seq<char>, Seq<char>)>> {
    let lines = fields(text, Separator::Newline);
    if all_parse(lines) {
        Some(Seq::new(lines.len(), |i: int| parse_line(lines[i])->0))
    } else {
        None
    }
}

/// The characters of `chars` from `from` up to `to`.
fn slice_chars(chars: &Vec<char>, from: usize, to: usize) -> (part: Vec<char>)
    requires
        from <= to <= chars@.len(),
    ensures
        part@ == chars@.subrange(from as int, to as int),
{
    let mut part: Vec<char> = Vec::new();
    let mut i: usize = from;
    while i < to
        invariant
            from <= i <= to <= chars@.len(),
            part@ == chars@.subrange(from as int, i as int),
        decreases to - i,
    {
        part.push(chars[i]);
        assert(part@ =~= chars@.subrange(from as int, i + 1));
        i += 1;
    }
    part
}

/// Reads the record of one line.
pub fn parse_record(line: &str) -> (record: Option<KeyValue>)
    ensures
        match record {
            Some(kv) => parse_line(line@) == Some(kv@),
            None => parse_line(line@) is None,
        },
{
    let chars = chars_of(line);
    let mut at: usize = 0;
    let mut found: usize = 0;
    let mut i: usize = 0;
    while i < chars.len()
        invariant
            i <= chars@.len(),
            found <= 2,
            found == 0 ==> forall|j: int| 0 <= j < i ==> chars@[j] != ' ',
            found == 1 ==> 0 <= at < i && chars@[at as int] == ' ' && forall|j: int|
                0 <= j < i && j != at ==> chars@[j] != ' ',
            found == 2 ==> exists|a: int, b: int|
                0 <= a < b < i && chars@[a] == ' ' && chars@[b] == ' ',
        decreases chars@.len() - i,
    {
        if chars[i] == ' ' {
            if found == 0 {
                at = i;
                found = 1;
            } else {
                if found == 1 {
                    assert(0 <= at < i && chars@[at as int] == ' ' && chars@[i as int] == ' ');
                }
                found = 2;
            }
        }
        i += 1;
    }
    if found != 1 {
        proof {
            if exists|k: int| splits_at(chars@, k) {
                let k = choose|k: int| splits_at(chars@, k);
                if found == 2 {
                    let (a, b) = choose|a: int, b: int|
                        0 <= a < b < i && chars@[a] == ' ' && chars@[b] == ' ';
                    assert(a == k && b == k);
                }
            }
        }
        return None;
    }
    proof {
        assert(splits_at(chars@, at as int));
        let k = choose|k: int| splits_at(chars@, k);
        assert(k == at);
    }
    let key = string_of(&slice_chars(&chars, 0, at));
    let value = string_of(&slice_chars(&chars, at + 1, chars.len()));
    Some(KeyValue::new(key, value))
}

/// Reads the records of a text. `None` where a line that is not empty does
/// not have exactly one space.
pub fn parse_records(contents: &str) -> (records: Option<Vec<KeyValue>>)
    ensures
        match records {
            Some(r) => parse(contents@) == Some(views(r@)),
            None => parse(contents@) is None,
        },
{
    let lines = split(contents, Separator::Newline);
    let ghost all = fields(contents@, Separator::Newline);
    let mut records: Vec<KeyValue> = Vec::new();
    let mut i: usize = 0;
    while i < lines.len()
        invariant
            i <= lines@.len(),
            texts(lines@) == all,
            all == fields(contents@, Separator::Newline),
            records@.len() == i,
            forall|j: int| 0 <= j < i ==> parse_line(all[j]) == Some(#[trigger] records@[j]@),
        decreases lines@.len() - i,
    {
        assert(lines@[i as int]@ == all[i as int]);
        match parse_record(lines[i].as_str()) {
            Some(kv) => {
                records.push(kv);
            },
            None => {
                assert(parse_line(all[i as int]) is None);
                assert(!all_parse(all));
                return None;
            },
        }
        i += 1;
    }
    proof {
        assert(lines@.len() == all.len());
        assert forall|j: int| 0 <= j < all.len() implies (#[trigger] parse_line(all[j])) is Some by {
            assert(parse_line(all[j]) == Some(records@[j]@));
        }
        assert(views(records@) =~= Seq::new(all.len(), |j: int| parse_line(all[j])->0));
    }
    Some(records)
}

/// Lexicographic order on bytes: `a` stands before `b` or is `b`.
pub open spec fn bytes_le(a: Seq<u8>, b: Seq<u8>) -> bool
    decreases a.len(),
{
    if a.len() == 0 {
        true
    } else if b.len() == 0 {
        false
    } else if a[0] != b[0] {
        a[0] < b[0]
    } else {
        bytes_le(a.drop_first(), b.drop_first())
    }
}

/// The order of keys: that of their UTF-8 bytes.
pub open spec fn key_le(a: Seq<char>, b: Seq<char>) -> bool {
    bytes_le(vstd::utf8::encode_utf8(a), vstd::utf8::encode_utf8(b))
}

/// The keys of the records ascend.
pub open spec fn sorted_by_key(records: Seq<(Seq<char>, Seq<char>)>) -> bool {
    forall|i: int, j: int| 0 <= i < j < records.len() ==> key_le(records[i].0, records[j].0)
}

/// Tells whether a record has the key `key`.
pub open spec fn has_key(key: Seq<char>) -> spec_fn((Seq<char>, Seq<char>)) -> bool {
    |r: (Seq<char>, Seq<char>)| r.0 == key
}

/// `sorted` holds the records of `records` in ascending order of their keys,
/// those of one key in the order in which they stand in `records`.
pub open spec fn is_stable_sort_of(
    sorted: Seq<(Seq<char>, Seq<char>)>,
    records: Seq<(Seq<char>, Seq<char>)>,
) -> bool {
    &&& sorted.len() == records.len()
    &&& sorted_by_key(sorted)
    &&& forall|key: Seq<char>| #[trigger]
        sorted.filter(has_key(key)) == records.filter(has_key(key))
}

/// Per key, in the order of the first record of each run: the key, and the
/// values of a run of records that stand side by side with the same key.
pub open spec fn groups(records: Seq<(Seq<char>, Seq<char>)>) -> Seq<(Seq<char>, Seq<Seq<char>>)>
    decreases records.len(),
{
    if records.len() == 0 {
        Seq::empty()
    } else {
        let before = groups(records.drop_last());
        let r = records.last();
        if before.len() > 0 && before.last().0 == r.0 {
            before.drop_last().push((r.0, before.last().1.push(r.1)))
        } else {
            before.push((r.0, seq![r.1]))
        }
    }
}

/// What each text of a sequence of borrowed texts holds.
pub open spec fn strs(values: Seq<&str>) -> Seq<Seq<char>> {
    values.map_values(|s: &str| s@)
}

/// The values of the records from `start` up to `end`.
pub open spec fn run_values(records: Seq<(Seq<char>, Seq<char>)>, start: int, end: int) -> Seq<
    Seq<char>,
> {
    records.subrange(start, end).map_values(|r: (Seq<char>, Seq<char>)| r.1)
}

/// `result` is what the reduce function gave for the key and the values of
/// `group`.
pub open spec fn reduced<F: Fn(&str, Vec<&str>) -> String>(
    reduce_func: F,
    group: (Seq<char>, Seq<Seq<char>>),
    result: Seq<char>,
) -> bool {
    exists|key: &str, values: Vec<&str>, out: String|
        key@ == group.0 && strs(values@) == group.1 && out@ == result && #[trigger] call_ensures(
            reduce_func,
            (key, values),
            out,
        )
}

/// How two keys stand to each other: -1 where `a` stands before `b`, 0
/// where they are the same key, 1 where `a` stands behind `b`.
pub open spec fn key_sign(a: Seq<char>, b: Seq<char>) -> int {
    if a == b {
        0
    } else if key_le(a, b) {
        -1
    } else {
        1
    }
}

/// Two texts of bytes that agree on their first `i` bytes stand to each
/// other as what follows these bytes.
proof fn lemma_bytes_le_skip(x: Seq<u8>, y: Seq<u8>, i: int)
    requires
        0 <= i <= x.len(),
        i <= y.len(),
        forall|j: int| 0 <= j < i ==> x[j] == y[j],
    ensures
        bytes_le(x, y) == bytes_le(x.skip(i), y.skip(i)),
    decreases i,
{
    if i == 0 {
        assert(x.skip(0) =~= x);
        assert(y.skip(0) =~= y);
    } else {
        assert(x[0] == y[0]);
        let xs = x.drop_first();
        let ys = y.drop_first();
        assert forall|j: int| 0 <= j < i - 1 implies xs[j] == ys[j] by {
            assert(xs[j] == x[j + 1] && ys[j] == y[j + 1]);
        }
        lemma_bytes_le_skip(xs, ys, i - 1);
        assert(xs.skip(i - 1) =~= x.skip(i));
        assert(ys.skip(i - 1) =~= y.skip(i));
    }
}

/// Compares the keys of two records by their bytes.
pub fn compare_keys(a: &KeyValue, b: &KeyValue) -> (sign: i8)
    ensures
        sign == key_sign(a@.0, b@.0),
        key_le(a@.0, b@.0) || key_le(b@.0, a@.0),
{
    let x = a.key().as_bytes();
    let y = b.key().as_bytes();
    proof {
        vstd::utf8::encode_utf8_decode_utf8(a@.0);
        vstd::utf8::encode_utf8_decode_utf8(b@.0);
    }
    let mut i: usize = 0;
    while i < x.len() && i < y.len()
        invariant
            i <= x@.len(),
            i <= y@.len(),
            x@ == vstd::utf8::encode_utf8(a@.0),
            y@ == vstd::utf8::encode_utf8(b@.0),
            forall|j: int| 0 <= j < i ==> x@[j] == y@[j],
        decreases x@.len() - i,
    {
        if x[i] != y[i] {
            proof {
                lemma_bytes_le_skip(x@, y@, i as int);
                lemma_bytes_le_skip(y@, x@, i as int);
                assert(x@.skip(i as int)[0] == x@[i as int]);
                assert(y@.skip(i as int)[0] == y@[i as int]);
            }
            if x[i] < y[i] {
                return -1;
            } else {
                return 1;
            }
        }
        i += 1;
    }
    proof {
        lemma_bytes_le_skip(x@, y@, i as int);
        lemma_bytes_le_skip(y@, x@, i as int);
        if x@.len() == y@.len() {
            assert(x@ =~= y@);
        }
    }
    if x.len() == y.len() {
        0
    } else if x.len() < y.len() {
        -1
    } else {
        1
    }
}

/// Reduces the run of records from `start` up to `end`, which all have the
/// key of the record at `start`.
fn reduce_run<F: Fn(&str, Vec<&str>) -> String>(
    records: &Vec<KeyValue>,
    start: usize,
    end: usize,
    reduce_func: &F,
) -> (kv: KeyValue)
    requires
        start < end <= records@.len(),
        forall|key: &str, values: Vec<&str>| call_requires(*reduce_func, (key, values)),
    ensures
        kv@.0 == records@[start as int]@.0,
        reduced(
            *reduce_func,
            (records@[start as int]@.0, run_values(views(records@), start as int, end as int)),
            kv@.1,
        ),
{
    let mut values: Vec<&str> = Vec::new();
    let mut i: usize = start;
    assert(strs(values@) =~= run_values(views(records@), start as int, start as int));
    while i < end
        invariant
            start <= i <= end <= records@.len(),
            strs(values@) == run_values(views(records@), start as int, i as int),
        decreases end - i,
    {
        let ghost before = values@;
        values.push(records[i].value());
        assert(strs(values@) =~= strs(before).push(records@[i as int]@.1));
        assert(run_values(views(records@), start as int, i + 1) =~= run_values(
            views(records@),
            start as int,
            i as int,
        ).push(records@[i as int]@.1));
        i += 1;
    }
    let key = records[start].key();
    let out = call_reduce_func(reduce_func, key, values);
    KeyValue::new(key.to_owned(), out)
}

/// Groups the records by runs of one key and reduces each run: one record
/// comes out per run, with the key of the run and what the reduce function
/// gave for its values. On records that are sorted by key there is one run
/// per key.
pub fn reduce_groups<F: Fn(&str, Vec<&str>) -> String>(records: &Vec<KeyValue>, reduce_func: &F) -> (out:
    Vec<KeyValue>)
    requires
        forall|key: &str, values: Vec<&str>| call_requires(*reduce_func, (key, values)),
    ensures
        out@.len() == groups(views(records@)).len(),
        forall|k: int|
            0 <= k < out@.len() ==> (#[trigger] out@[k])@.0 == groups(views(records@))[k].0
                && reduced(*reduce_func, groups(views(records@))[k], out@[k]@.1),
{
    let mut out: Vec<KeyValue> = Vec::new();
    let n = records.len();
    let ghost all = views(records@);
    if n == 0 {
        return out;
    }
    let mut start: usize = 0;
    let mut i: usize = 1;
    proof {
        assert(all.take(1).drop_last() =~= Seq::empty());
        assert(groups(all.take(1).drop_last()) =~= Seq::empty());
        assert(run_values(all, 0, 1) =~= seq![all[0].1]);
        assert(groups(all.take(1)) =~= seq![(all[0].0, seq![all[0].1])]);
    }
    while i < n
        invariant
            n == records@.len(),
            all == views(records@),
            start < i <= n,
            forall|key: &str, values: Vec<&str>| call_requires(*reduce_func, (key, values)),
            groups(all.take(i as int)).len() == out@.len() + 1,
            groups(all.take(i as int)).last() == (
                all[start as int].0,
                run_values(all, start as int, i as int),
            ),
            forall|k: int|
                0 <= k < out@.len() ==> (#[trigger] out@[k])@.0 == groups(all.take(i as int))[k].0
                    && reduced(*reduce_func, groups(all.take(i as int))[k], out@[k]@.1),
        decreases n - i,
    {
        let ghost seen = groups(all.take(i as int));
        proof {
            assert(all.take(i + 1).drop_last() =~= all.take(i as int));
            assert(all.take(i + 1).last() == all[i as int]);
            assert(run_values(all, start as int, i + 1) =~= run_values(
                all,
                start as int,
                i as int,
            ).push(all[i as int].1));
            assert(run_values(all, i as int, i + 1) =~= seq![all[i as int].1]);
        }
        if !records[i].same_key(&records[start]) {
            let kv = reduce_run(records, start, i, reduce_func);
            out.push(kv);
            start = i;
        }
        i += 1;
    }
    let kv = reduce_run(records, start, n, reduce_func);
    out.push(kv);
    assert(all.take(n as int) =~= all);
    out
}

/// The records of several texts, text after text. `None` where one of the
/// texts holds a line without a record.
pub open spec fn parse_all(files: Seq<Seq<char>>) -> Option<Seq<(Seq<char>, Seq<char>)>>
    decreases files.len(),
{
    if files.len() == 0 {
        Some(Seq::empty())
    } else {
        match (parse_all(files.drop_last()), parse(files.last())) {
            (Some(before), Some(last)) => Some(before + last),
            _ => None,
        }
    }
}

/// Reads the records of several texts into one buffer.
pub fn parse_files(files: &Vec<String>) -> (records: Option<Vec<KeyValue>>)
    ensures
        match records {
            Some(r) => parse_all(texts(files@)) == Some(views(r@)),
            None => parse_all(texts(files@)) is None,
        },
{
    let mut records: Vec<KeyValue> = Vec::new();
    let mut i: usize = 0;
    assert(texts(files@).take(0) =~= Seq::empty());
    assert(views(records@) =~= Seq::empty());
    while i < files.len()
        invariant
            i <= files@.len(),
            parse_all(texts(files@).take(i as int)) == Some(views(records@)),
        decreases files@.len() - i,
    {
        proof {
            assert(texts(files@).take(i + 1).drop_last() =~= texts(files@).take(i as int));
            assert(texts(files@).take(i + 1).last() == files@[i as int]@);
        }
        match parse_records(files[i].as_str()) {
            Some(mut more) => {
                let ghost before = views(records@);
                let ghost added = views(more@);
                records.append(&mut more);
                assert(views(records@) =~= before + added);
            },
            None => {
                proof {
                    lemma_parse_all_fails(texts(files@), i + 1);
                    assert(texts(files@).take(files@.len() as int) =~= texts(files@));
                }
                return None;
            },
        }
        i += 1;
    }
    assert(texts(files@).take(files@.len() as int) =~= texts(files@));
    Some(records)
}

/// Once the first `k` texts do not parse, no longer sequence of them does.
proof fn lemma_parse_all_fails(files: Seq<Seq<char>>, k: int)
    requires
        0 <= k <= files.len(),
        parse_all(files.take(k)) is None,
    ensures
        parse_all(files) is None,
    decreases files.len() - k,
{
    if k < files.len() {
        assert(files.take(k + 1).drop_last() =~= files.take(k));
        lemma_parse_all_fails(files, k + 1);
    } else {
        assert(files.take(k) =~= files);
    }
}

} // verus!
