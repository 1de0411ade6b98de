//! Lines of the source text: how the text splits into them, which of them
//! are records, and what the key of a record is.

use vstd::prelude::*;

verus! {

/// The character between a key and its value.
pub const SEPARATOR: char = '=';

/// The character a comment line begins with.
pub const COMMENT: char = '#';

/// The index of the first `c` in `s`, or the length of `s` if it holds none.
pub open spec fn first_index(s: Seq<char>, c: char) -> nat
    decreases s.len(),
{
    if s.len() == 0 || s.first() == c {
        0
    } else {
        1nat + first_index(s.drop_first(), c)
    }
}

/// `first_index` lies within the sequence, nothing before it is `c`, and `c`
/// stands at it unless the sequence holds no `c` at all.
pub proof fn lemma_first_index(s: Seq<char>, c: char)
    ensures
        first_index(s, c) <= s.len(),
        forall|i: int| 0 <= i < first_index(s, c) ==> s[i] != c,
        first_index(s, c) < s.len() ==> s[first_index(s, c) as int] == c,
        first_index(s, c) < s.len() <==> s.contains(c),
    decreases s.len(),
{
    if s.len() == 0 || s.first() == c {
        if s.len() > 0 {
            assert(s[0] == c);
        }
    } else {
        let rest = s.drop_first();
        lemma_first_index(rest, c);
        assert forall|i: int| 0 <= i < first_index(s, c) implies s[i] != c by {
            if i > 0 {
                assert(s[i] == rest[i - 1]);
            }
        }
        if first_index(s, c) < s.len() {
            assert(s[first_index(s, c) as int] == rest[first_index(rest, c) as int]);
        }
        if s.contains(c) {
            let i = choose|i: int| 0 <= i < s.len() && s[i] == c;
            assert(rest[i - 1] == c);
        }
    }
}

/// The first position that holds `c`, with no `c` before it, is
/// `first_index`; so is the length of a sequence that holds no `c`.
pub proof fn lemma_first_index_is(s: Seq<char>, c: char, n: int)
    requires
        0 <= n <= s.len(),
        forall|i: int| 0 <= i < n ==> s[i] != c,
        n < s.len() ==> s[n] == c,
    ensures
        first_index(s, c) == n,
{
    lemma_first_index(s, c);
    let f = first_index(s, c) as int;
    if f < n {
        assert(s[f] == c);
    }
}

/// Whether `line` begins with the comment marker.
pub open spec fn is_comment(line: Seq<char>) -> bool {
    line.len() > 0 && line[0] == COMMENT
}

/// Whether `line` is a record: it holds a separator and is no comment.
pub open spec fn is_record(line: Seq<char>) -> bool {
    line.contains(SEPARATOR) && !is_comment(line)
}

/// The key of a line: what stands before its first separator.
pub open spec fn key_of(line: Seq<char>) -> Seq<char> {
    line.take(first_index(line, SEPARATOR) as int)
}

/// A line without its trailing carriage return, if it has one.
pub open spec fn strip_cr(line: Seq<char>) -> Seq<char> {
    if line.len() > 0 && line.last() == '\r' {
        line.drop_last()
    } else {
        line
    }
}

/// The lines of a text.
///
/// A line ends at a line feed, or at a carriage return directly followed by
/// a line feed; neither belongs to the line. What follows the last line feed
/// is a line of its own unless it is empty, and keeps a carriage return at
/// its end.
pub open spec fn lines_of(text: Seq<char>) -> Seq<Seq<char>>
    decreases text.len(),
{
    if text.len() == 0 {
        Seq::empty()
    } else {
        let end = first_index(text, '\n') as int;
        if end >= text.len() {
            seq![text]
        } else {
            seq![strip_cr(text.take(end))] + lines_of(text.skip(end + 1))
        }
    }
}

/// The lines that a vector of character vectors holds.
pub open spec fn texts(lines: Seq<Vec<char>>) -> Seq<Seq<char>> {
    lines.map_values(|line: Vec<char>| line@)
}

/// A key and the separator after it are a prefix of every record with it.
pub proof fn lemma_key_is_prefix(line: Seq<char>)
    requires
        line.contains(SEPARATOR),
    ensures
        (key_of(line) + seq![SEPARATOR]).is_prefix_of(line),
{
    lemma_first_index(line, SEPARATOR);
}

/// A line that starts with a key and the separator after it has that key.
pub proof fn lemma_key_from_prefix(line: Seq<char>, other: Seq<char>)
    requires
        other.contains(SEPARATOR),
        (key_of(other) + seq![SEPARATOR]).is_prefix_of(line),
    ensures
        line.contains(SEPARATOR),
        key_of(line) == key_of(other),
{
    lemma_first_index(other, SEPARATOR);
    let n = first_index(other, SEPARATOR) as int;
    let prefix = key_of(other) + seq![SEPARATOR];
    assert forall|i: int| 0 <= i < n implies line[i] != SEPARATOR by {
        assert(line.subrange(0, prefix.len() as int)[i] == prefix[i]);
    }
    assert(line[n] == SEPARATOR) by {
        assert(line.subrange(0, prefix.len() as int)[n] == prefix[n]);
    }
    lemma_first_index_is(line, SEPARATOR, n);
    assert(key_of(line) =~= key_of(other)) by {
        assert forall|i: int| 0 <= i < n implies line[i] == other[i] by {
            assert(line.subrange(0, prefix.len() as int)[i] == prefix[i]);
        }
    }
}

/// Splits a text into its lines.
pub fn split_lines(text: &Vec<char>) -> (lines: Vec<Vec<char>>)
    ensures
        texts(lines@) == lines_of(text@),
{
    let n = text.len();
    let mut lines: Vec<Vec<char>> = Vec::new();
    let mut current: Vec<char> = Vec::new();
    let mut start: usize = 0;
    let mut i: usize = 0;
    assert(text@.skip(0) == text@);
    while i < n
        invariant
            n == text.len(),
            start <= i <= n,
            current@ == text@.subrange(start as int, i as int),
            forall|k: int| start <= k < i ==> text@[k] != '\n',
            texts(lines@) + lines_of(text@.skip(start as int)) == lines_of(text@),
        decreases n - i,
    {
        let c = text[i];
        if c == '\n' {
            let ghost rest = text@.skip(start as int);
            let ghost whole = current@;
            proof {
                lemma_first_index_is(rest, '\n', i - start);
                assert(rest.take(i - start) == whole);
                assert(rest.skip(i - start + 1) == text@.skip(i + 1));
            }
            let len = current.len();
            if len > 0 && current[len - 1] == '\r' {
                current.pop();
            }
            assert(current@ == strip_cr(whole));
            let ghost before = lines@;
            lines.push(current);
            assert(texts(lines@) == texts(before).push(strip_cr(whole)));
            current = Vec::new();
            start = i + 1;
        } else {
            current.push(c);
        }
        i += 1;
    }
    let ghost rest = text@.skip(start as int);
    if start < n {
        proof {
            lemma_first_index_is(rest, '\n', n - start);
            assert(rest == current@);
        }
        let ghost before = lines@;
        lines.push(current);
        assert(texts(lines@) == texts(before).push(rest));
    }
    lines
}

/// Decides whether a line is a record.
pub fn is_record_line(line: &Vec<char>) -> (record: bool)
    ensures
        record == is_record(line@),
{
    let n = line.len();
    if n == 0 || line[0] == COMMENT {
        return false;
    }
    let mut i: usize = 0;
    while i < n
        invariant
            n == line.len(),
            i <= n,
            !is_comment(line@),
            forall|k: int| 0 <= k < i ==> line@[k] != SEPARATOR,
        decreases n - i,
    {
        if line[i] == SEPARATOR {
            assert(line@[i as int] == SEPARATOR);
            return true;
        }
        i += 1;
    }
    false
}

/// Decides whether two lines have the same key.
pub fn same_key(a: &Vec<char>, b: &Vec<char>) -> (same: bool)
    ensures
        same == (key_of(a@) == key_of(b@)),
{
    let mut i: usize = 0;
    loop
        invariant
            i <= a.len(),
            i <= b.len(),
            forall|k: int| 0 <= k < i ==> a@[k] == b@[k],
            forall|k: int| 0 <= k < i ==> a@[k] != SEPARATOR,
        decreases a.len() - i,
    {
        let a_ends = i == a.len() || a[i] == SEPARATOR;
        let b_ends = i == b.len() || b[i] == SEPARATOR;
        proof {
            lemma_first_index(a@, SEPARATOR);
            lemma_first_index(b@, SEPARATOR);
            if a_ends {
                lemma_first_index_is(a@, SEPARATOR, i as int);
            }
            if b_ends {
                lemma_first_index_is(b@, SEPARATOR, i as int);
            }
        }
        if a_ends || b_ends {
            proof {
                if a_ends && b_ends {
                    assert(key_of(a@) =~= key_of(b@));
                } else {
                    assert(key_of(a@).len() != key_of(b@).len());
                }
            }
            return a_ends && b_ends;
        }
        if a[i] != b[i] {
            assert(key_of(a@)[i as int] != key_of(b@)[i as int]);
            return false;
        }
        i += 1;
    }
}

} // verus!
