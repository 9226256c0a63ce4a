//! Word count.

use crate::mr::pattern::{regex_replace_all, replace_all};
use crate::mr::records::views;
use crate::mr::text::{decimal, decimal_string, fields, split, texts, Separator};
use crate::mr::worker::KeyValue;
use vstd::prelude::*;

verus! {

/// The input without its punctuation: without every character that is
/// neither a word character nor whitespace.
pub open spec fn stripped(input: Seq<char>) -> Option<Seq<char>> {
    regex_replace_all(r"[^\w\s]"@, input, ""@)
}

/// One record per word: the word, and the count 1.
pub open spec fn word_pairs(words: Seq<Seq<char>>) -> Seq<(Seq<char>, Seq<char>)> {
    words.map_values(|w: Seq<char>| (w, seq!['1']))
}

/// The words of a text, which whitespace separates, each with the count 1.
pub fn words(text: &str) -> (records: Vec<KeyValue>)
    ensures
        views(records@) == word_pairs(fields(text@, Separator::Whitespace)),
{
    let parts = split(text, Separator::Whitespace);
    let mut records: Vec<KeyValue> = Vec::new();
    let mut i: usize = 0;
    while i < parts.len()
        invariant
            i <= parts@.len(),
            texts(parts@) == fields(text@, Separator::Whitespace),
            records@.len() == i,
            forall|j: int| 0 <= j < i ==> (#[trigger] records@[j])@ == (parts@[j]@, seq!['1']),
        decreases parts@.len() - i,
    {
        let one = "1".to_owned();
        proof {
            reveal_strlit("1");
            assert(one@ =~= seq!['1']);
        }
        records.push(KeyValue::new(parts[i].clone(), one));
        i += 1;
    }
    assert(views(records@) =~= word_pairs(texts(parts@)));
    records
}

/// Tells whether the punctuation of the input can be taken out.
pub fn strips(input: &str) -> (ok: bool)
    ensures
        ok == stripped(input@) is Some,
{
    replace_all(r"[^\w\s]", input, "").is_some()
}

/// The words of the input without its punctuation, each with the count 1.
pub fn map(input: &str) -> (records: Vec<KeyValue>)
    requires
        stripped(input@) is Some,
    ensures
        views(records@) == word_pairs(fields(stripped(input@)->0, Separator::Whitespace)),
{
    match replace_all(r"[^\w\s]", input, "") {
        Some(clean) => words(clean.as_str()),
        None => Vec::new(),
    }
}

/// As `map`, for any input: `None` where the punctuation cannot be taken
/// out.
pub fn try_map(input: &str) -> (records: Option<Vec<KeyValue>>)
    ensures
        match records {
            Some(r) => stripped(input@) is Some && views(r@) == word_pairs(
                fields(stripped(input@)->0, Separator::Whitespace),
            ),
            None => stripped(input@) is None,
        },
{
    if strips(input) {
        Some(map(input))
    } else {
        None
    }
}

/// The number of values of a key, in decimal.
pub fn reduce(_key: &str, value: Vec<&str>) -> (count: String)
    ensures
        count@ == decimal(value@.len()),
{
    decimal_string(value.len() as u64)
}

} // verus!
