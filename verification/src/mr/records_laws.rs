//! What holds of partitioning and grouping: each key goes to one reduce
//! task with all of its records, and a reduce task counts each of its keys
//! once, in ascending order.

use crate::mr::records::{
    bytes_le, groups, has_key, is_stable_sort_of, key_le, sorted_by_key,
};
use crate::mr::worker::{bucket, bucket_index, counts, in_bucket};
use crate::mr::text::decimal;
use vstd::prelude::*;
use vstd::utf8::{encode_utf8, encode_utf8_decode_utf8};

verus! {

/// Some record has the key `key`.
pub open spec fn key_in(records: Seq<(Seq<char>, Seq<char>)>, key: Seq<char>) -> bool {
    exists|i: int| 0 <= i < records.len() && (#[trigger] records[i]).0 == key
}

/// Some group has the key `key`.
pub open spec fn group_key_in(groups: Seq<(Seq<char>, Seq<Seq<char>>)>, key: Seq<char>) -> bool {
    exists|a: int| 0 <= a < groups.len() && (#[trigger] groups[a]).0 == key
}

/// The values of the records of one key, in the order of the records.
pub open spec fn values_of(records: Seq<(Seq<char>, Seq<char>)>, key: Seq<char>) -> Seq<Seq<char>> {
    records.filter(has_key(key)).map_values(|r: (Seq<char>, Seq<char>)| r.1)
}

/// The reduce task of a key is one of the `n` reduce tasks.
pub proof fn lemma_bucket_index_in_range(key: Seq<char>, n: int)
    requires
        n > 0,
    ensures
        0 <= bucket_index(key, n) < n,
{
}

/// A filter that no record passes leaves nothing.
pub proof fn lemma_filter_none(
    records: Seq<(Seq<char>, Seq<char>)>,
    pred: spec_fn((Seq<char>, Seq<char>)) -> bool,
)
    requires
        forall|i: int| 0 <= i < records.len() ==> !pred(#[trigger] records[i]),
    ensures
        records.filter(pred) == Seq::<(Seq<char>, Seq<char>)>::empty(),
    decreases records.len(),
{
    reveal(Seq::filter);
    if records.len() > 0 {
        let before = records.drop_last();
        assert forall|i: int| 0 <= i < before.len() implies !pred(#[trigger] before[i]) by {
            assert(before[i] == records[i]);
        }
        lemma_filter_none(before, pred);
        assert(!pred(records[records.len() - 1]));
    }
}

/// The records of a key all go to the reduce task of the key, in their
/// order; no other reduce task gets a record of that key.
pub proof fn lemma_bucket_keeps_keys(
    records: Seq<(Seq<char>, Seq<char>)>,
    n: int,
    j: int,
    key: Seq<char>,
)
    requires
        n > 0,
    ensures
        bucket(records, n, j).filter(has_key(key)) == if bucket_index(key, n) == j {
            records.filter(has_key(key))
        } else {
            Seq::empty()
        },
    decreases records.len(),
{
    reveal(Seq::filter);
    if records.len() > 0 {
        let before = records.drop_last();
        let r = records.last();
        lemma_bucket_keeps_keys(before, n, j, key);
        assert(records =~= before.push(r));
        before.lemma_filter_push(r, in_bucket(n, j));
        before.lemma_filter_push(r, has_key(key));
        bucket(before, n, j).lemma_filter_push(r, has_key(key));
    }
}

/// Two texts of bytes that stand each before the other are one text.
pub proof fn lemma_bytes_le_antisymmetric(a: Seq<u8>, b: Seq<u8>)
    requires
        bytes_le(a, b),
        bytes_le(b, a),
    ensures
        a == b,
    decreases a.len(),
{
    if a.len() == 0 || b.len() == 0 {
        assert(a =~= b);
    } else {
        lemma_bytes_le_antisymmetric(a.drop_first(), b.drop_first());
        assert(a =~= seq![a[0]] + a.drop_first());
        assert(b =~= seq![b[0]] + b.drop_first());
    }
}

/// Two keys that stand each before the other are one key.
pub proof fn lemma_key_le_antisymmetric(a: Seq<char>, b: Seq<char>)
    requires
        key_le(a, b),
        key_le(b, a),
    ensures
        a == b,
{
    lemma_bytes_le_antisymmetric(encode_utf8(a), encode_utf8(b));
    encode_utf8_decode_utf8(a);
    encode_utf8_decode_utf8(b);
}

/// What holds of the groups of records that are sorted by key.
pub open spec fn groups_by_key(records: Seq<(Seq<char>, Seq<char>)>) -> bool {
    let gs = groups(records);
    &&& records.len() == 0 <==> gs.len() == 0
    &&& records.len() > 0 ==> gs.last().0 == records.last().0
    &&& forall|a: int|
        0 <= a < gs.len() ==> (#[trigger] gs[a]).1 == values_of(records, gs[a].0) && gs[a].1.len()
            > 0 && key_in(records, gs[a].0)
    &&& forall|a: int, b: int|
        0 <= a < b < gs.len() ==> (#[trigger] gs[a]).0 != (#[trigger] gs[b]).0 && key_le(
            gs[a].0,
            gs[b].0,
        )
    &&& forall|i: int| 0 <= i < records.len() ==> group_key_in(gs, (#[trigger] records[i]).0)
}

/// On records that are sorted by key there is one group per key: it holds
/// the values of all the records of its key, the keys of the groups ascend
/// and no two are the same, and every key of a record is the key of a group.
pub proof fn lemma_groups_of_sorted(records: Seq<(Seq<char>, Seq<char>)>)
    requires
        sorted_by_key(records),
    ensures
        groups_by_key(records),
    decreases records.len(),
{
    reveal(Seq::filter);
    if records.len() == 0 {
        return ;
    }
    let before = records.drop_last();
    let r = records.last();
    let old_groups = groups(before);
    let gs = groups(records);
    assert(sorted_by_key(before)) by {
        assert forall|i: int, j: int| 0 <= i < j < before.len() implies key_le(
            before[i].0,
            before[j].0,
        ) by {
            assert(before[i] == records[i] && before[j] == records[j]);
        }
    }
    lemma_groups_of_sorted(before);
    assert(records =~= before.push(r));
    if old_groups.len() > 0 && old_groups.last().0 == r.0 {
        let last = old_groups.len() - 1;
        assert(gs =~= old_groups.drop_last().push((r.0, old_groups.last().1.push(r.1))));
        assert forall|a: int| 0 <= a < gs.len() implies (#[trigger] gs[a]).1 == values_of(
            records,
            gs[a].0,
        ) && gs[a].1.len() > 0 && key_in(records, gs[a].0) by {
            before.lemma_filter_push(r, has_key(gs[a].0));
            if a < last {
                assert(gs[a] == old_groups[a]);
                assert(old_groups[a].0 != old_groups[last].0);
            } else {
                assert(values_of(records, r.0) =~= values_of(before, r.0).push(r.1));
                assert(old_groups[last].1 == values_of(before, r.0));
            }
            assert(records[records.len() - 1].0 == r.0);
            if a < last {
                let i = choose|i: int| 0 <= i < before.len() && (#[trigger] before[i]).0 == gs[a].0;
                assert(records[i] == before[i]);
            }
        }
        assert forall|a: int, b: int| 0 <= a < b < gs.len() implies (#[trigger] gs[a]).0 != (
        #[trigger] gs[b]).0 && key_le(gs[a].0, gs[b].0) by {
            assert(gs[a].0 == old_groups[a].0);
            assert(gs[b].0 == old_groups[b].0);
        }
        assert forall|i: int| 0 <= i < records.len() implies group_key_in(
            gs,
            (#[trigger] records[i]).0,
        ) by {
            if i < before.len() {
                assert(records[i] == before[i]);
                assert(group_key_in(old_groups, before[i].0));
                let a = choose|a: int|
                    0 <= a < old_groups.len() && (#[trigger] old_groups[a]).0 == before[i].0;
                assert(gs[a].0 == old_groups[a].0);
            } else {
                assert(gs[last].0 == r.0);
            }
        }
    } else {
        assert(gs =~= old_groups.push((r.0, seq![r.1])));
        // No earlier record has the key of the last one.
        assert forall|i: int| 0 <= i < before.len() implies !has_key(r.0)(#[trigger] before[i]) by {
            if before[i].0 == r.0 {
                let end = before.len() - 1;
                assert(old_groups.last().0 == before[end].0);
                assert(records[i] == before[i] && records[end] == before[end]);
                if i < end {
                    assert(key_le(records[i].0, records[end].0));
                }
                assert(key_le(records[end].0, records[records.len() - 1].0));
                if i < end {
                    lemma_key_le_antisymmetric(before[end].0, r.0);
                }
            }
        }
        lemma_filter_none(before, has_key(r.0));
        assert forall|a: int| 0 <= a < gs.len() implies (#[trigger] gs[a]).1 == values_of(
            records,
            gs[a].0,
        ) && gs[a].1.len() > 0 && key_in(records, gs[a].0) by {
            before.lemma_filter_push(r, has_key(gs[a].0));
            if a < old_groups.len() {
                assert(gs[a] == old_groups[a]);
                let i = choose|i: int| 0 <= i < before.len() && (#[trigger] before[i]).0 == gs[a].0;
                assert(records[i] == before[i]);
                assert(!has_key(r.0)(before[i]));
            } else {
                assert(values_of(records, r.0) =~= seq![r.1]);
                assert(records[records.len() - 1].0 == r.0);
            }
        }
        assert forall|a: int, b: int| 0 <= a < b < gs.len() implies (#[trigger] gs[a]).0 != (
        #[trigger] gs[b]).0 && key_le(gs[a].0, gs[b].0) by {
            assert(gs[a] == old_groups[a]);
            if b < old_groups.len() {
                assert(gs[b] == old_groups[b]);
            } else {
                assert(key_in(before, old_groups[a].0));
                let i = choose|i: int|
                    0 <= i < before.len() && (#[trigger] before[i]).0 == old_groups[a].0;
                assert(records[i] == before[i]);
                assert(!has_key(r.0)(before[i]));
                assert(key_le(records[i].0, records[records.len() - 1].0));
            }
        }
        assert forall|i: int| 0 <= i < records.len() implies group_key_in(
            gs,
            (#[trigger] records[i]).0,
        ) by {
            if i < before.len() {
                assert(records[i] == before[i]);
                let a = choose|a: int|
                    0 <= a < old_groups.len() && (#[trigger] old_groups[a]).0 == before[i].0;
                assert(gs[a] == old_groups[a]);
            } else {
                assert(gs[gs.len() - 1].0 == r.0);
            }
        }
    }
}

/// The output of a reduce task is the word count of its records: it holds
/// each key of the records once, with the number of the records of that
/// key, and its keys ascend.
pub proof fn lemma_reduce_output_counts(
    records: Seq<(Seq<char>, Seq<char>)>,
    sorted: Seq<(Seq<char>, Seq<char>)>,
)
    requires
        is_stable_sort_of(sorted, records),
    ensures
        forall|a: int|
            0 <= a < counts(groups(sorted)).len() ==> (#[trigger] counts(groups(sorted))[a]).1
                == decimal(records.filter(has_key(counts(groups(sorted))[a].0)).len())
                && records.filter(has_key(counts(groups(sorted))[a].0)).len() > 0,
        forall|a: int, b: int|
            0 <= a < b < counts(groups(sorted)).len() ==> (#[trigger] counts(groups(sorted))[a]).0
                != (#[trigger] counts(groups(sorted))[b]).0 && key_le(
                counts(groups(sorted))[a].0,
                counts(groups(sorted))[b].0,
            ),
        forall|i: int|
            0 <= i < records.len() ==> key_in(counts(groups(sorted)), (#[trigger] records[i]).0),
{
    lemma_groups_of_sorted(sorted);
    let gs = groups(sorted);
    let out = counts(gs);
    assert forall|a: int| 0 <= a < out.len() implies (#[trigger] out[a]).1 == decimal(
        records.filter(has_key(out[a].0)).len(),
    ) && records.filter(has_key(out[a].0)).len() > 0 by {
        let key = gs[a].0;
        assert(out[a] == (key, decimal(gs[a].1.len())));
        assert(gs[a].1 == values_of(sorted, key));
        assert(sorted.filter(has_key(key)) == records.filter(has_key(key)));
    }
    assert forall|a: int, b: int| 0 <= a < b < out.len() implies (#[trigger] out[a]).0 != (
    #[trigger] out[b]).0 && key_le(out[a].0, out[b].0) by {
        assert(out[a].0 == gs[a].0 && out[b].0 == gs[b].0);
    }
    assert forall|i: int| 0 <= i < records.len() implies key_in(out, (#[trigger] records[i]).0) by {
        let key = records[i].0;
        records.lemma_filter_contains(has_key(key), i);
        assert(has_key(key)(records[i]));
        assert(records.filter(has_key(key)).contains(records[i]));
        assert(sorted.filter(has_key(key)) == records.filter(has_key(key)));
        sorted.lemma_filter_contains_rev(has_key(key), records[i]);
        assert(sorted.contains(records[i]));
        let k = choose|k: int| 0 <= k < sorted.len() && sorted[k] == records[i];
        assert(group_key_in(gs, sorted[k].0));
        let a = choose|a: int| 0 <= a < gs.len() && (#[trigger] gs[a]).0 == key;
        assert(out[a].0 == key);
    }
}

} // verus!
