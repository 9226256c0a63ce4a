//! Text as sequences of characters: splitting into fields, and decimal
//! numbers.

use vstd::prelude::*;
use vstd::string::StringExecFns;

verus! {

/// What separates the fields of a text.
#[derive(Clone, Copy, Debug, PartialEq, Eq, Structural)]
pub enum Separator {
    /// Any character with the Unicode property `White_Space`.
    Whitespace,
    /// The line feed.
    Newline,
    /// The space, U+0020.
    Space,
}

/// The characters with the Unicode property `White_Space`.
pub open spec fn is_space(c: char) -> bool {
    let u = c as u32;
    ||| 0x09 <= u <= 0x0d
    ||| u == 0x20
    ||| u == 0x85
    ||| u == 0xa0
    ||| u == 0x1680
    ||| 0x2000 <= u <= 0x200a
    ||| u == 0x2028
    ||| u == 0x2029
    ||| u == 0x202f
    ||| u == 0x205f
    ||| u == 0x3000
}

impl Separator {
    pub open spec fn matches(self, c: char) -> bool {
        match self {
            Separator::Whitespace => is_space(c),
            Separator::Newline => c == '\n',
            Separator::Space => c == ' ',
        }
    }

    /// Tells whether `c` separates two fields.
    pub fn separates(self, c: char) -> (r: bool)
        ensures
            r == self.matches(c),
    {
        match self {
            Separator::Whitespace => {
                let u = c as u32;
                (0x09 <= u && u <= 0x0d) || u == 0x20 || u == 0x85 || u == 0xa0 || u == 0x1680 || (
                0x2000 <= u && u <= 0x200a) || u == 0x2028 || u == 0x2029 || u == 0x202f || u
                    == 0x205f || u == 0x3000
            },
            Separator::Newline => c == '\n',
            Separator::Space => c == ' ',
        }
    }
}

/// The fields that are complete, with `open` added where it is not empty.
pub open spec fn close(complete: Seq<Seq<char>>, open: Seq<char>) -> Seq<Seq<char>> {
    if open.len() > 0 {
        complete.push(open)
    } else {
        complete
    }
}

/// Reading `text` from the left: the fields that a separator has ended, and
/// the characters of the field that is still open.
pub open spec fn scan(text: Seq<char>, sep: Separator) -> (Seq<Seq<char>>, Seq<char>)
    decreases text.len(),
{
    if text.len() == 0 {
        (Seq::empty(), Seq::empty())
    } else {
        let (complete, open) = scan(text.drop_last(), sep);
        if sep.matches(text.last()) {
            (close(complete, open), Seq::empty())
        } else {
            (complete, open.push(text.last()))
        }
    }
}

/// The fields of a text: its longest runs of characters that are no
/// separators, from left to right. No field is empty.
pub open spec fn fields(text: Seq<char>, sep: Separator) -> Seq<Seq<char>> {
    close(scan(text, sep).0, scan(text, sep).1)
}

/// What each text of a sequence holds.
pub open spec fn texts(strings: Seq<String>) -> Seq<Seq<char>> {
    strings.map_values(|s: String| s@)
}

/// The decimal digit of a number below ten.
pub open spec fn digit(d: nat) -> char
    recommends
        d < 10,
{
    (48 + d) as u8 as char
}

/// A number in decimal, without leading zeros.
pub open spec fn decimal(n: nat) -> Seq<char>
    decreases n,
{
    if n < 10 {
        seq![digit(n)]
    } else {
        decimal(n / 10).push(digit(n % 10))
    }
}

/// The characters of a text.
pub fn chars_of(text: &str) -> (chars: Vec<char>)
    ensures
        chars@ == text@,
{
    broadcast use vstd::string::group_string_axioms;

    let mut chars: Vec<char> = Vec::new();
    for c in it: text.chars()
        invariant
            it.seq() == text@,
            chars@ == text@.take(it.index() as int),
    {
        chars.push(c);
        assert(chars@ =~= text@.take(it.index() + 1));
    }
    assert(chars@ =~= text@);
    chars
}

/// Calls `String::from_iter` on the characters of `chars`: the text that
/// holds these characters, in order.
#[verifier::external_body]
pub(crate) fn string_of(chars: &Vec<char>) -> (text: String)
    ensures
        text@ == chars@,
{
    String::from_iter(chars.iter())
}

/// Splits a text into its fields.
pub fn split(text: &str, sep: Separator) -> (parts: Vec<String>)
    ensures
        texts(parts@) == fields(text@, sep),
{
    let chars = chars_of(text);
    let mut parts: Vec<String> = Vec::new();
    let mut open: Vec<char> = Vec::new();
    let mut i: usize = 0;
    assert(chars@.take(0) =~= Seq::empty());
    assert(texts(parts@) =~= Seq::empty());
    while i < chars.len()
        invariant
            i <= chars@.len(),
            (texts(parts@), open@) == scan(chars@.take(i as int), sep),
        decreases chars@.len() - i,
    {
        let c = chars[i];
        proof {
            assert(chars@.take(i + 1).drop_last() =~= chars@.take(i as int));
            assert(chars@.take(i + 1).last() == c);
        }
        if sep.separates(c) {
            if open.len() > 0 {
                let part = string_of(&open);
                let ghost before = parts@;
                parts.push(part);
                assert(texts(parts@) =~= texts(before).push(open@));
                open = Vec::new();
            }
            assert(open@ =~= Seq::empty());
        } else {
            open.push(c);
        }
        i += 1;
    }
    assert(chars@.take(chars@.len() as int) =~= chars@);
    if open.len() > 0 {
        let part = string_of(&open);
        let ghost before = parts@;
        parts.push(part);
        assert(texts(parts@) =~= texts(before).push(open@));
    }
    parts
}

/// Appends the decimal digits of `n` to `out`.
pub fn push_decimal(out: &mut Vec<char>, n: u64)
    ensures
        final(out)@ == old(out)@ + decimal(n as nat),
    decreases n,
{
    if n >= 10 {
        push_decimal(out, n / 10);
    }
    let d = (48 + (n % 10)) as u8;
    out.push(d as char);
    assert(final(out)@ =~= old(out)@ + decimal(n as nat));
}

/// A number in decimal.
pub fn decimal_string(n: u64) -> (text: String)
    ensures
        text@ == decimal(n as nat),
{
    let mut digits: Vec<char> = Vec::new();
    push_decimal(&mut digits, n);
    assert(digits@ =~= decimal(n as nat));
    string_of(&digits)
}

/// The lines as one text, each ended by a line feed.
pub open spec fn join_lines(lines: Seq<Seq<char>>) -> Seq<char>
    decreases lines.len(),
{
    if lines.len() == 0 {
        Seq::empty()
    } else {
        join_lines(lines.drop_last()) + lines.last() + seq!['\n']
    }
}

/// Joins the lines to one text.
pub fn join(lines: &Vec<String>) -> (text: String)
    ensures
        text@ == join_lines(texts(lines@)),
{
    let mut text = String::new();
    let mut i: usize = 0;
    assert(texts(lines@).take(0) =~= Seq::empty());
    while i < lines.len()
        invariant
            i <= lines@.len(),
            text@ == join_lines(texts(lines@).take(i as int)),
        decreases lines@.len() - i,
    {
        let ghost before = text@;
        text.append(lines[i].as_str());
        text.append("\n");
        proof {
            reveal_strlit("\n");
            assert("\n"@ =~= seq!['\n']);
            assert(texts(lines@).take(i + 1).drop_last() =~= texts(lines@).take(i as int));
            assert(texts(lines@).take(i + 1).last() == lines@[i as int]@);
            assert(text@ =~= before + lines@[i as int]@ + seq!['\n']);
        }
        i += 1;
    }
    assert(texts(lines@).take(lines@.len() as int) =~= texts(lines@));
    text
}

/// A line: a text that is not empty and holds no line feed.
pub open spec fn is_line(line: Seq<char>) -> bool {
    line.len() > 0 && forall|i: int| 0 <= i < line.len() ==> line[i] != '\n'
}

/// Reading on over a text without separators adds it to the open field.
pub proof fn lemma_scan_append(s: Seq<char>, t: Seq<char>, sep: Separator)
    requires
        forall|i: int| 0 <= i < t.len() ==> !sep.matches(t[i]),
    ensures
        scan(s + t, sep) == (scan(s, sep).0, scan(s, sep).1 + t),
    decreases t.len(),
{
    if t.len() == 0 {
        assert(s + t =~= s);
        assert(scan(s, sep).1 + t =~= scan(s, sep).1);
    } else {
        lemma_scan_append(s, t.drop_last(), sep);
        assert((s + t).drop_last() =~= s + t.drop_last());
        assert((s + t).last() == t.last());
        assert((scan(s, sep).1 + t.drop_last()).push(t.last()) =~= scan(s, sep).1 + t);
    }
}

/// Lines that were joined to a text are the lines of that text.
pub proof fn lemma_fields_of_joined(lines: Seq<Seq<char>>)
    requires
        forall|i: int| 0 <= i < lines.len() ==> is_line(#[trigger] lines[i]),
    ensures
        scan(join_lines(lines), Separator::Newline) == (lines, Seq::<char>::empty()),
        fields(join_lines(lines), Separator::Newline) == lines,
    decreases lines.len(),
{
    if lines.len() > 0 {
        let before = lines.drop_last();
        let last = lines.last();
        assert forall|i: int| 0 <= i < before.len() implies is_line(#[trigger] before[i]) by {
            assert(before[i] == lines[i]);
        }
        lemma_fields_of_joined(before);
        assert(is_line(last));
        lemma_scan_append(join_lines(before), last, Separator::Newline);
        let text = join_lines(lines);
        assert(text.drop_last() =~= join_lines(before) + last);
        assert(text.last() == '\n');
        assert(Seq::<char>::empty() + last =~= last);
        assert(before.push(last) =~= lines);
    }
}

} // verus!
