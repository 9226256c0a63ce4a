use map_reduce_rs::mr::function::wc;
use map_reduce_rs::mr::records::{
    parse_files, parse_record, parse_records, reduce_groups, render_records,
};
use map_reduce_rs::mr::text::{chars_of, decimal_string, split, Separator};
use map_reduce_rs::mr::job::{NOT_READY, PHASE_DONE, WAIT_RETRY};
use map_reduce_rs::mr::records::compare_keys;
use map_reduce_rs::mr::sorting::key_order;
use map_reduce_rs::mr::worker::{
    call_map_func, call_reduce_func, intermediate_texts, partition, Action, KeyValue, Worker,
};
use std::cmp::Ordering;
use std::collections::hash_map::DefaultHasher;
use std::hash::{Hash, Hasher};

fn kv(key: &str, value: &str) -> KeyValue {
    KeyValue::new(key.to_string(), value.to_string())
}

fn pairs(records: &[KeyValue]) -> Vec<(String, String)> {
    records.iter().map(|r| (r.key().to_string(), r.value().to_string())).collect()
}

fn std_hash(key: &str) -> u64 {
    let mut s = DefaultHasher::new();
    key.hash(&mut s);
    s.finish()
}

#[test]
fn key_value_keeps_what_it_was_given() {
    let r = KeyValue::new("k".to_string(), "v".to_string());
    assert_eq!(r.key(), "k");
    assert_eq!(r.value(), "v");
    assert_eq!(r.duplicate(), r);
    assert!(r.same_key(&kv("k", "other")));
    assert!(!r.same_key(&kv("v", "v")));
    assert!(kv("a", "2") < kv("b", "1"));
}

#[test]
fn worker_starts_in_map_phase_without_task() {
    let w = Worker::new(3, 4);
    assert!(!w.get_state());
    assert_eq!(w.get_map_id(), -1);
    assert_eq!(w.get_reduce_id(), -1);
}

#[test]
fn worker_setters_and_state_change() {
    let mut w = Worker::new(3, 4);
    w.set_map_id(2);
    assert_eq!(w.get_map_id(), 2);
    assert_eq!(w.get_reduce_id(), -1);
    w.set_map_id(-1);
    w.change_state();
    assert!(w.get_state());
    w.set_reduce_id(1);
    assert_eq!(w.get_reduce_id(), 1);
    assert_eq!(w.get_map_id(), -1);
}

#[test]
fn call_map_func_calls_the_function() {
    let out = call_map_func(|s: &str| vec![kv(s, "x")], "in");
    assert_eq!(pairs(&out), vec![("in".to_string(), "x".to_string())]);
    let out = call_map_func(wc::map, "a b");
    assert_eq!(pairs(&out), vec![("a".to_string(), "1".to_string()), ("b".to_string(), "1".to_string())]);
}

#[test]
fn call_reduce_func_calls_the_function() {
    let out = call_reduce_func(|k: &str, v: Vec<&str>| format!("{}:{}", k, v.join("+")), "k", vec!["1", "2"]);
    assert_eq!(out, "k:1+2");
    assert_eq!(call_reduce_func(wc::reduce, "k", vec!["1", "1", "1"]), "3");
}

#[test]
fn hash_is_that_of_the_default_hasher() {
    for key in ["", "a", "b", "hello", "héllo", "日本語", "a b", "\u{ff}"] {
        assert_eq!(Worker::cal_hash_for_key(key), std_hash(key));
    }
    assert_ne!(Worker::cal_hash_for_key("a"), Worker::cal_hash_for_key("b"));
}

#[test]
fn partition_sends_each_record_to_the_bucket_of_its_key() {
    let records = vec![kv("a", "1"), kv("b", "1"), kv("a", "2"), kv("c", "1"), kv("b", "2")];
    for n in 1..6 {
        let buckets = partition(&records, n);
        assert_eq!(buckets.len(), n as usize);
        for (j, bucket) in buckets.iter().enumerate() {
            let expected: Vec<KeyValue> = records
                .iter()
                .filter(|r| (std_hash(r.key()) % n as u64) as usize == j)
                .cloned()
                .collect();
            assert_eq!(bucket, &expected);
        }
        let total: usize = buckets.iter().map(|b| b.len()).sum();
        assert_eq!(total, records.len());
    }
}

#[test]
fn partition_of_nothing_gives_empty_buckets() {
    let buckets = partition(&Vec::new(), 3);
    assert_eq!(buckets, vec![Vec::new(), Vec::new(), Vec::new()]);
}

#[test]
fn partitioning_is_deterministic() {
    let records = wc::map("the quick brown fox jumps over the lazy dog the end");
    let first = intermediate_texts(&records, 4);
    let second = intermediate_texts(&records, 4);
    assert_eq!(first, second);
    assert_eq!(first.len(), 4);
    let all: String = first.concat();
    assert_eq!(all.lines().count(), 11);
}

#[test]
fn render_writes_one_line_per_record() {
    assert_eq!(render_records(&Vec::new()), "");
    assert_eq!(render_records(&vec![kv("a", "1")]), "a 1\n");
    assert_eq!(render_records(&vec![kv("a", "1"), kv("bb", "22"), kv("", "")]), "a 1\nbb 22\n \n");
}

#[test]
fn parse_reads_back_what_render_wrote() {
    let records = vec![kv("a", "1"), kv("héllo", "22"), kv("c", "3")];
    let text = render_records(&records);
    assert_eq!(parse_records(&text), Some(records));
}

#[test]
fn parse_passes_over_empty_lines() {
    let got = parse_records("\n\na 1\n\nb 2").unwrap();
    assert_eq!(got, vec![kv("a", "1"), kv("b", "2")]);
    assert_eq!(parse_records(""), Some(Vec::new()));
    assert_eq!(parse_records("\n\n"), Some(Vec::new()));
}

#[test]
fn parse_refuses_a_line_without_exactly_one_space() {
    assert_eq!(parse_records("a 1\nb\n"), None);
    assert_eq!(parse_records("a 1 2\n"), None);
    assert_eq!(parse_records("a  1\n"), None);
    assert_eq!(parse_record("ab"), None);
    assert_eq!(parse_record(""), None);
    assert_eq!(parse_record("a b c"), None);
}

#[test]
fn parse_record_splits_at_the_space() {
    assert_eq!(parse_record("key value"), Some(kv("key", "value")));
    assert_eq!(parse_record(" v"), Some(kv("", "v")));
    assert_eq!(parse_record("k "), Some(kv("k", "")));
    assert_eq!(parse_record(" "), Some(kv("", "")));
    assert_eq!(parse_record("a\tb c"), Some(kv("a\tb", "c")));
}

#[test]
fn parse_files_joins_the_files_in_order() {
    let files = vec!["b 1\na 1\n".to_string(), String::new(), "a 2\n".to_string()];
    assert_eq!(parse_files(&files), Some(vec![kv("b", "1"), kv("a", "1"), kv("a", "2")]));
    assert_eq!(parse_files(&Vec::new()), Some(Vec::new()));
    let bad = vec!["a 1\n".to_string(), "oops\n".to_string(), "b 1\n".to_string()];
    assert_eq!(parse_files(&bad), None);
}

#[test]
fn reduce_groups_reduces_each_run_of_one_key() {
    let join = |k: &str, v: Vec<&str>| format!("{}={}", k, v.join(","));
    let records = vec![kv("a", "1"), kv("a", "2"), kv("b", "3"), kv("a", "4"), kv("c", "5"), kv("c", "6")];
    let out = reduce_groups(&records, &join);
    assert_eq!(
        out,
        vec![kv("a", "a=1,2"), kv("b", "b=3"), kv("a", "a=4"), kv("c", "c=5,6")]
    );
    assert_eq!(reduce_groups(&Vec::new(), &join), Vec::new());
    assert_eq!(reduce_groups(&vec![kv("", "x")], &join), vec![kv("", "=x")]);
}

#[test]
fn reduce_groups_flushes_the_last_group() {
    let records = vec![kv("a", "1"), kv("b", "1"), kv("b", "1")];
    let out = reduce_groups(&records, &wc::reduce);
    assert_eq!(out, vec![kv("a", "1"), kv("b", "2")]);
}

#[test]
fn worker_map_writes_one_text_per_reduce_task() {
    let mut w = Worker::new(2, 3);
    w.set_map_id(0);
    let files = w.map("a b, a!").unwrap();
    assert_eq!(w.get_map_id(), -1);
    assert!(!w.get_state());
    assert_eq!(files.len(), 3);
    for (j, text) in files.iter().enumerate() {
        for line in text.lines() {
            let key = line.split(' ').next().unwrap();
            assert_eq!((std_hash(key) % 3) as usize, j);
            assert!(line.ends_with(" 1"));
        }
    }
    let mut lines: Vec<String> = files.concat().lines().map(|l| l.to_string()).collect();
    lines.sort();
    assert_eq!(lines, vec!["a 1", "a 1", "b 1"]);
}

#[test]
fn worker_reduce_sorts_and_counts() {
    let mut w = Worker::new(2, 1);
    w.change_state();
    w.set_reduce_id(0);
    let files = vec!["b 1\na 1\nc 1\n".to_string(), "a 1\nb 1\na 1\n".to_string()];
    assert_eq!(w.reduce(&files), Some("a 3\nb 2\nc 1\n".to_string()));
    assert_eq!(w.get_reduce_id(), -1);
    assert!(w.get_state());
}

#[test]
fn worker_reduce_orders_keys_by_their_bytes() {
    let mut w = Worker::new(1, 1);
    w.change_state();
    w.set_reduce_id(0);
    let files = vec!["b 1\nB 1\n\u{e9} 1\nz 1\na 1\nab 1\n".to_string()];
    assert_eq!(w.reduce(&files), Some("B 1\na 1\nab 1\nb 1\nz 1\n\u{e9} 1\n".to_string()));
}

#[test]
fn worker_reduce_refuses_a_broken_file_and_keeps_its_task() {
    let mut w = Worker::new(1, 1);
    w.change_state();
    w.set_reduce_id(3);
    assert_eq!(w.reduce(&vec!["a 1\nbroken\n".to_string()]), None);
    assert_eq!(w.get_reduce_id(), 3);
}

#[test]
fn worker_reduce_of_nothing_is_empty() {
    let mut w = Worker::new(1, 1);
    w.change_state();
    w.set_reduce_id(0);
    assert_eq!(w.reduce(&vec![String::new()]), Some(String::new()));
}

fn run_job(inputs: &[&str], reduce_n: i32) -> Vec<String> {
    let map_n = inputs.len() as i32;
    let mut intermediates: Vec<Vec<String>> = Vec::new();
    for (i, input) in inputs.iter().enumerate() {
        let mut w = Worker::new(map_n, reduce_n);
        w.set_map_id(i as i32);
        intermediates.push(w.map(input).unwrap());
    }
    let mut lines = Vec::new();
    for j in 0..reduce_n as usize {
        let mut w = Worker::new(map_n, reduce_n);
        w.change_state();
        w.set_reduce_id(j as i32);
        let files: Vec<String> = intermediates.iter().map(|f| f[j].clone()).collect();
        let out = w.reduce(&files).unwrap();
        lines.extend(out.lines().map(|l| l.to_string()));
    }
    lines.sort();
    lines
}

#[test]
fn happy_path_word_count() {
    assert_eq!(run_job(&["a b a", "b c"], 2), vec!["a 2", "b 2", "c 1"]);
}

#[test]
fn word_count_does_not_depend_on_the_split() {
    let text = "the cat and the hat and the bat";
    let expected = vec!["and 2", "bat 1", "cat 1", "hat 1", "the 3"];
    for reduce_n in 1..5 {
        assert_eq!(run_job(&[text], reduce_n), expected);
        assert_eq!(run_job(&["the cat and", "the hat and the bat"], reduce_n), expected);
        assert_eq!(run_job(&["the", "cat and the hat", "", "and the bat"], reduce_n), expected);
    }
}

#[test]
fn chars_of_gives_the_characters() {
    assert_eq!(chars_of("héllo"), vec!['h', 'é', 'l', 'l', 'o']);
    assert_eq!(chars_of(""), Vec::<char>::new());
}

#[test]
fn split_on_whitespace_is_that_of_std() {
    for text in ["", " ", "a", " a b  c\t\nd ", "x\u{a0}y\u{2003}z", "one\u{3000}two", "\u{85}a\u{1680}"] {
        let expected: Vec<String> = text.split_whitespace().map(|s| s.to_string()).collect();
        assert_eq!(split(text, Separator::Whitespace), expected);
    }
}

#[test]
fn whitespace_is_that_of_unicode() {
    for c in (0..=0x10ffffu32).filter_map(char::from_u32) {
        assert_eq!(Separator::Whitespace.separates(c), c.is_whitespace(), "{:?}", c);
    }
    assert!(Separator::Newline.separates('\n'));
    assert!(!Separator::Newline.separates(' '));
    assert!(Separator::Space.separates(' '));
    assert!(!Separator::Space.separates('\t'));
}

#[test]
fn split_on_newline_and_space() {
    assert_eq!(split("a b\n\nc\n", Separator::Newline), vec!["a b", "c"]);
    assert_eq!(split("a b\n c", Separator::Space), vec!["a", "b\n", "c"]);
}

#[test]
fn decimal_string_is_that_of_std() {
    for n in [0u64, 1, 9, 10, 11, 99, 100, 12345, 4294967296, u64::MAX] {
        assert_eq!(decimal_string(n), n.to_string());
    }
}

#[test]
fn worker_follows_the_replies_of_the_coordinator() {
    let mut w = Worker::new(2, 2);
    assert_eq!(w.on_reply(NOT_READY), Action::Retry);
    assert_eq!(w.on_reply(WAIT_RETRY), Action::Retry);
    assert_eq!(w.on_reply(-7), Action::Retry);
    assert_eq!(w.get_map_id(), -1);
    assert!(!w.get_state());
    assert_eq!(w.on_reply(1), Action::RunMap { id: 1 });
    assert_eq!(w.get_map_id(), 1);
    assert_eq!(w.get_reduce_id(), -1);
    w.set_map_id(-1);
    assert_eq!(w.on_reply(PHASE_DONE), Action::StartReduce);
    assert!(w.get_state());
    assert_eq!(w.on_reply(NOT_READY), Action::Retry);
    assert_eq!(w.on_reply(WAIT_RETRY), Action::Retry);
    assert_eq!(w.on_reply(0), Action::RunReduce { id: 0 });
    assert_eq!(w.get_reduce_id(), 0);
    assert_eq!(w.get_map_id(), -1);
    w.set_reduce_id(-1);
    assert_eq!(w.on_reply(PHASE_DONE), Action::Exit);
    assert!(w.get_state());
}

#[test]
fn worker_gives_up_a_task_whose_lease_is_gone() {
    let mut w = Worker::new(2, 2);
    assert_eq!(w.on_reply(1), Action::RunMap { id: 1 });
    assert!(w.on_renewal(true));
    assert_eq!(w.get_map_id(), 1);
    assert!(!w.on_renewal(false));
    assert_eq!(w.get_map_id(), -1);
    assert!(!w.get_state());
    w.change_state();
    assert_eq!(w.on_reply(0), Action::RunReduce { id: 0 });
    assert!(!w.on_renewal(false));
    assert_eq!(w.get_reduce_id(), -1);
    assert!(w.get_state());
}

#[test]
fn keys_are_ordered_as_strings_are() {
    let keys = ["", "a", "A", "ab", "abc", "b", "z", "\u{e9}", "日本", "日本語", "a\u{0}", "\u{10ffff}"];
    for x in keys {
        for y in keys {
            let expected = x.cmp(y);
            assert_eq!(key_order(&kv(x, "1"), &kv(y, "2")), expected, "{:?} {:?}", x, y);
            let sign = match expected {
                Ordering::Less => -1,
                Ordering::Equal => 0,
                Ordering::Greater => 1,
            };
            assert_eq!(compare_keys(&kv(x, ""), &kv(y, "")), sign);
        }
    }
}

#[test]
fn worker_reduce_keeps_the_order_of_the_values_of_a_key() {
    let join = |k: &str, v: Vec<&str>| format!("{}={}", k, v.join(","));
    let mut records = parse_files(&vec!["b 1\na 2\nb 3\na 4\n".to_string()]).unwrap();
    records.sort_by(|l, r| key_order(l, r));
    assert_eq!(reduce_groups(&records, &join), vec![kv("a", "a=2,4"), kv("b", "b=1,3")]);
}
