//! What holds of a whole job: what the map tasks write is what the reduce
//! tasks read, and the output of each reduce task is the count, over all the
//! inputs, of each key that goes to it.

use crate::mr::function::wc::word_pairs;
use crate::mr::records::{
    groups, has_key, is_stable_sort_of, key_le, parse, parse_all, parse_line, render,
    render_record, splits_at,
};
use crate::mr::records_laws::{
    key_in, lemma_bucket_keeps_keys, lemma_reduce_output_counts,
};
use crate::mr::text::{
    close, decimal, fields, is_line, is_space, join_lines, lemma_fields_of_joined, scan,
    Separator,
};
use crate::mr::worker::{bucket, bucket_index, counts, in_bucket};
use vstd::prelude::*;

verus! {

/// A text without space and line feed.
pub open spec fn is_word(text: Seq<char>) -> bool {
    forall|i: int| 0 <= i < text.len() ==> text[i] != ' ' && text[i] != '\n'
}

/// A record that can stand on a line: neither its key nor its value holds
/// a space or a line feed.
pub open spec fn is_clean(record: (Seq<char>, Seq<char>)) -> bool {
    is_word(record.0) && is_word(record.1)
}

pub open spec fn all_clean(records: Seq<(Seq<char>, Seq<char>)>) -> bool {
    forall|i: int| 0 <= i < records.len() ==> is_clean(#[trigger] records[i])
}

/// The line of a record without its line feed.
pub open spec fn line_of(record: (Seq<char>, Seq<char>)) -> Seq<char> {
    record.0 + seq![' '] + record.1
}

pub open spec fn lines_of(records: Seq<(Seq<char>, Seq<char>)>) -> Seq<Seq<char>> {
    records.map_values(|r: (Seq<char>, Seq<char>)| line_of(r))
}

/// The records of several sequences, one sequence after the other.
pub open spec fn concat_all(parts: Seq<Seq<(Seq<char>, Seq<char>)>>) -> Seq<(Seq<char>, Seq<char>)>
    decreases parts.len(),
{
    if parts.len() == 0 {
        Seq::empty()
    } else {
        concat_all(parts.drop_last()) + parts.last()
    }
}

/// The records that reduce task `j` of `n` gets from each map task.
pub open spec fn buckets_for(parts: Seq<Seq<(Seq<char>, Seq<char>)>>, n: int, j: int) -> Seq<
    Seq<(Seq<char>, Seq<char>)>,
> {
    parts.map_values(|p: Seq<(Seq<char>, Seq<char>)>| bucket(p, n, j))
}

/// The texts of the intermediate files that reduce task `j` of `n` reads,
/// one of each map task.
pub open spec fn intermediate(parts: Seq<Seq<(Seq<char>, Seq<char>)>>, n: int, j: int) -> Seq<
    Seq<char>,
> {
    parts.map_values(|p: Seq<(Seq<char>, Seq<char>)>| render(bucket(p, n, j)))
}

/// The text of records is their lines, joined.
pub proof fn lemma_render_is_join(records: Seq<(Seq<char>, Seq<char>)>)
    ensures
        render(records) == join_lines(lines_of(records)),
    decreases records.len(),
{
    if records.len() > 0 {
        lemma_render_is_join(records.drop_last());
        assert(lines_of(records).drop_last() =~= lines_of(records.drop_last()));
        assert(render_record(records.last()) =~= line_of(records.last()) + seq!['\n']);
        assert(render(records) =~= join_lines(lines_of(records).drop_last()) + lines_of(
            records,
        ).last() + seq!['\n']);
    }
}

/// The line of a clean record is read back as the record.
pub proof fn lemma_parse_line_of(record: (Seq<char>, Seq<char>))
    requires
        is_clean(record),
    ensures
        parse_line(line_of(record)) == Some(record),
        is_line(line_of(record)),
{
    let line = line_of(record);
    let at = record.0.len() as int;
    assert(line[at] == ' ');
    assert forall|j: int| 0 <= j < line.len() && j != at implies line[j] != ' ' && line[j]
        != '\n' by {
        if j < at {
            assert(line[j] == record.0[j]);
        } else {
            assert(line[j] == record.1[j - at - 1]);
        }
    }
    assert(splits_at(line, at));
    let k = choose|k: int| splits_at(line, k);
    assert(k == at);
    assert(line.take(at) =~= record.0);
    assert(line.skip(at + 1) =~= record.1);
}

/// Clean records that were written are read back as they were.
pub proof fn lemma_parse_render(records: Seq<(Seq<char>, Seq<char>)>)
    requires
        all_clean(records),
    ensures
        parse(render(records)) == Some(records),
{
    let lines = lines_of(records);
    lemma_render_is_join(records);
    assert forall|i: int| 0 <= i < lines.len() implies is_line(#[trigger] lines[i]) by {
        lemma_parse_line_of(records[i]);
    }
    lemma_fields_of_joined(lines);
    assert forall|i: int| 0 <= i < lines.len() implies (#[trigger] parse_line(lines[i])) == Some(
        records[i],
    ) by {
        lemma_parse_line_of(records[i]);
    }
    assert(Seq::new(lines.len(), |i: int| parse_line(lines[i])->0) =~= records);
}

/// The records of a bucket of clean records are clean.
pub proof fn lemma_bucket_clean(records: Seq<(Seq<char>, Seq<char>)>, n: int, j: int)
    requires
        all_clean(records),
    ensures
        all_clean(bucket(records, n, j)),
{
    let b = bucket(records, n, j);
    assert forall|i: int| 0 <= i < b.len() implies is_clean(#[trigger] b[i]) by {
        assert(b.contains(b[i]));
        records.lemma_filter_contains_rev(in_bucket(n, j), b[i]);
        let k = choose|k: int| 0 <= k < records.len() && records[k] == b[i];
        assert(is_clean(records[k]));
    }
}

/// What the map tasks write for a reduce task is read by it as the
/// records that go to it, map task after map task.
pub proof fn lemma_parse_all_intermediate(
    parts: Seq<Seq<(Seq<char>, Seq<char>)>>,
    n: int,
    j: int,
)
    requires
        forall|i: int| 0 <= i < parts.len() ==> all_clean(#[trigger] parts[i]),
    ensures
        parse_all(intermediate(parts, n, j)) == Some(concat_all(buckets_for(parts, n, j))),
    decreases parts.len(),
{
    if parts.len() > 0 {
        let before = parts.drop_last();
        assert forall|i: int| 0 <= i < before.len() implies all_clean(#[trigger] before[i]) by {
            assert(before[i] == parts[i]);
        }
        lemma_parse_all_intermediate(before, n, j);
        assert(intermediate(parts, n, j).drop_last() =~= intermediate(before, n, j));
        assert(buckets_for(parts, n, j).drop_last() =~= buckets_for(before, n, j));
        assert(all_clean(parts[parts.len() - 1]));
        lemma_bucket_clean(parts.last(), n, j);
        lemma_parse_render(bucket(parts.last(), n, j));
    }
}

/// Of the records that a reduce task reads, those of a key are all the
/// records of that key of all the map tasks where the key goes to that
/// reduce task, and none where it goes to another.
pub proof fn lemma_reduce_input_keys(
    parts: Seq<Seq<(Seq<char>, Seq<char>)>>,
    n: int,
    j: int,
    key: Seq<char>,
)
    requires
        n > 0,
    ensures
        concat_all(buckets_for(parts, n, j)).filter(has_key(key)) == if bucket_index(key, n) == j {
            concat_all(parts).filter(has_key(key))
        } else {
            Seq::empty()
        },
    decreases parts.len(),
{
    reveal(Seq::filter);
    if parts.len() > 0 {
        let before = parts.drop_last();
        lemma_reduce_input_keys(before, n, j, key);
        assert(buckets_for(parts, n, j).drop_last() =~= buckets_for(before, n, j));
        lemma_bucket_keeps_keys(parts.last(), n, j, key);
        Seq::filter_distributes_over_add(
            concat_all(buckets_for(before, n, j)),
            bucket(parts.last(), n, j),
            has_key(key),
        );
        Seq::filter_distributes_over_add(concat_all(before), parts.last(), has_key(key));
        assert(Seq::<(Seq<char>, Seq<char>)>::empty() + Seq::<(Seq<char>, Seq<char>)>::empty()
            =~= Seq::<(Seq<char>, Seq<char>)>::empty());
    }
}

/// A record that a reduce task reads has a key that goes to that task.
pub proof fn lemma_reduce_input_index(parts: Seq<Seq<(Seq<char>, Seq<char>)>>, n: int, j: int)
    ensures
        forall|i: int|
            0 <= i < concat_all(buckets_for(parts, n, j)).len() ==> bucket_index(
                (#[trigger] concat_all(buckets_for(parts, n, j))[i]).0,
                n,
            ) == j,
    decreases parts.len(),
{
    if parts.len() > 0 {
        let before = parts.drop_last();
        lemma_reduce_input_index(before, n, j);
        assert(buckets_for(parts, n, j).drop_last() =~= buckets_for(before, n, j));
        let b = bucket(parts.last(), n, j);
        let all = concat_all(buckets_for(parts, n, j));
        let head = concat_all(buckets_for(before, n, j));
        assert forall|i: int| 0 <= i < all.len() implies bucket_index((#[trigger] all[i]).0, n)
            == j by {
            if i < head.len() {
                assert(all[i] == head[i]);
            } else {
                assert(all[i] == b[i - head.len()]);
                parts.last().lemma_filter_pred(in_bucket(n, j), i - head.len());
                assert(in_bucket(n, j)(b[i - head.len()]));
            }
        }
    }
}

/// The text holds no separator.
pub open spec fn free_of(text: Seq<char>, sep: Separator) -> bool {
    forall|k: int| 0 <= k < text.len() ==> !sep.matches(#[trigger] text[k])
}

/// None of the texts holds a separator.
pub open spec fn all_free_of(texts: Seq<Seq<char>>, sep: Separator) -> bool {
    forall|i: int| 0 <= i < texts.len() ==> free_of(#[trigger] texts[i], sep)
}

/// No field of a text holds a separator.
pub proof fn lemma_fields_hold_no_separator(text: Seq<char>, sep: Separator)
    ensures
        all_free_of(scan(text, sep).0, sep),
        free_of(scan(text, sep).1, sep),
        all_free_of(fields(text, sep), sep),
    decreases text.len(),
{
    if text.len() > 0 {
        lemma_fields_hold_no_separator(text.drop_last(), sep);
        let before = scan(text.drop_last(), sep);
        let now = scan(text, sep);
        assert(all_free_of(close(before.0, before.1), sep)) by {
            let closed = close(before.0, before.1);
            assert forall|i: int| 0 <= i < closed.len() implies free_of(#[trigger] closed[i], sep) by {
                if i < before.0.len() {
                    assert(closed[i] == before.0[i]);
                } else {
                    assert(closed[i] == before.1);
                }
            }
        }
        if sep.matches(text.last()) {
            assert(now.0 == close(before.0, before.1));
        } else {
            assert(now.0 == before.0);
            assert(now.1 == before.1.push(text.last()));
            assert forall|k: int| 0 <= k < now.1.len() implies !sep.matches(#[trigger] now.1[k]) by {
                if k < before.1.len() {
                    assert(now.1[k] == before.1[k]);
                }
            }
        }
    }
    let now = scan(text, sep);
    let closed = close(now.0, now.1);
    assert forall|i: int| 0 <= i < closed.len() implies free_of(#[trigger] closed[i], sep) by {
        if i < now.0.len() {
            assert(closed[i] == now.0[i]);
        } else {
            assert(closed[i] == now.1);
        }
    }
}

/// The records that word count makes of a text are clean.
pub proof fn lemma_word_pairs_clean(text: Seq<char>)
    ensures
        all_clean(word_pairs(fields(text, Separator::Whitespace))),
{
    let words = fields(text, Separator::Whitespace);
    let pairs = word_pairs(words);
    lemma_fields_hold_no_separator(text, Separator::Whitespace);
    assert forall|i: int| 0 <= i < pairs.len() implies is_clean(#[trigger] pairs[i]) by {
        assert(pairs[i] == (words[i], seq!['1']));
        assert(free_of(words[i], Separator::Whitespace));
        assert forall|k: int| 0 <= k < words[i].len() implies words[i][k] != ' ' && words[i][k]
            != '\n' by {
            assert(!Separator::Whitespace.matches(words[i][k]));
            assert(is_space(' ') && is_space('\n'));
        }
    }
}

/// The output of reduce task `j` of `n` is the word count of the job for
/// the keys that go to that task, whatever the number of map tasks and
/// however the records are spread over them: what the map tasks wrote is
/// read back as the records of reduce task `j`; each key of the output goes
/// to reduce task `j` and stands with the number of records of that key of
/// all the map tasks together; the keys ascend and none stands twice; and
/// each key of the job that goes to reduce task `j` is in the output.
pub proof fn lemma_job_counts_words(
    parts: Seq<Seq<(Seq<char>, Seq<char>)>>,
    n: int,
    j: int,
    sorted: Seq<(Seq<char>, Seq<char>)>,
)
    requires
        n > 0,
        forall|i: int| 0 <= i < parts.len() ==> all_clean(#[trigger] parts[i]),
        is_stable_sort_of(sorted, concat_all(buckets_for(parts, n, j))),
    ensures
        parse_all(intermediate(parts, n, j)) == Some(concat_all(buckets_for(parts, n, j))),
        forall|a: int|
            0 <= a < counts(groups(sorted)).len() ==> bucket_index(
                (#[trigger] counts(groups(sorted))[a]).0,
                n,
            ) == j && counts(groups(sorted))[a].1 == decimal(
                concat_all(parts).filter(has_key(counts(groups(sorted))[a].0)).len(),
            ),
        forall|a: int, b: int|
            0 <= a < b < counts(groups(sorted)).len() ==> (#[trigger] counts(groups(sorted))[a]).0
                != (#[trigger] counts(groups(sorted))[b]).0 && key_le(
                counts(groups(sorted))[a].0,
                counts(groups(sorted))[b].0,
            ),
        forall|i: int|
            0 <= i < concat_all(parts).len() && bucket_index(
                (#[trigger] concat_all(parts)[i]).0,
                n,
            ) == j ==> key_in(counts(groups(sorted)), concat_all(parts)[i].0),
{
    let read = concat_all(buckets_for(parts, n, j));
    let all = concat_all(parts);
    let out = counts(groups(sorted));
    lemma_parse_all_intermediate(parts, n, j);
    lemma_reduce_output_counts(read, sorted);
    lemma_reduce_input_index(parts, n, j);
    assert forall|a: int| 0 <= a < out.len() implies bucket_index((#[trigger] out[a]).0, n) == j
        && out[a].1 == decimal(all.filter(has_key(out[a].0)).len()) by {
        let key = out[a].0;
        lemma_reduce_input_keys(parts, n, j, key);
        let of_key = read.filter(has_key(key));
        assert(of_key.len() > 0);
        read.lemma_filter_pred(has_key(key), 0);
        assert(has_key(key)(of_key[0]));
        assert(of_key.contains(of_key[0]));
        read.lemma_filter_contains_rev(has_key(key), of_key[0]);
        let k = choose|k: int| 0 <= k < read.len() && read[k] == of_key[0];
        assert(bucket_index(read[k].0, n) == j);
    }
    assert forall|i: int|
        0 <= i < all.len() && bucket_index((#[trigger] all[i]).0, n) == j implies key_in(
        out,
        all[i].0,
    ) by {
        let key = all[i].0;
        lemma_reduce_input_keys(parts, n, j, key);
        all.lemma_filter_contains(has_key(key), i);
        assert(has_key(key)(all[i]));
        assert(all.filter(has_key(key)).contains(all[i]));
        assert(read.filter(has_key(key)).contains(all[i]));
        read.lemma_filter_contains_rev(has_key(key), all[i]);
        let k = choose|k: int| 0 <= k < read.len() && read[k] == all[i];
        assert(key_in(out, read[k].0));
    }
}

} // verus!
