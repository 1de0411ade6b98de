//! The normal form of a sequence of lines.
//!
//! The normal form holds, for each key among the records, the smallest
//! record with that key, and holds these in ascending order. It is stated
//! here as a property; that every sequence of lines has exactly one normal
//! form is proved below, and so are the laws that follow from it.

use vstd::prelude::*;
use crate::line::{
    is_record, key_of, lemma_key_from_prefix, lemma_key_is_prefix, lines_of, SEPARATOR,
};
use crate::order::{
    lemma_lex_antisymmetric, lemma_lex_asymmetric, lemma_lex_between, lemma_lex_irreflexive,
    lemma_lex_total, lemma_lex_transitive, lex_le, lex_lt,
};

verus! {

/// Whether each line precedes or equals every line after it.
pub open spec fn ascending(lines: Seq<Seq<char>>) -> bool {
    forall|i: int, j: int|
        0 <= i < j < lines.len() ==> lex_le(#[trigger] lines[i], #[trigger] lines[j])
}

/// Whether each line strictly precedes every line after it.
pub open spec fn strictly_ascending(lines: Seq<Seq<char>>) -> bool {
    forall|i: int, j: int|
        0 <= i < j < lines.len() ==> lex_lt(#[trigger] lines[i], #[trigger] lines[j])
}

/// Whether no two lines have the same key.
pub open spec fn distinct_keys(lines: Seq<Seq<char>>) -> bool {
    forall|i: int, j: int|
        0 <= i < j < lines.len() ==> key_of(#[trigger] lines[i]) != key_of(#[trigger] lines[j])
}

/// Whether `line` is represented in `normal`: some line there has its key
/// and precedes or equals it.
pub open spec fn represented(normal: Seq<Seq<char>>, line: Seq<char>) -> bool {
    exists|j: int|
        0 <= j < normal.len() && key_of(#[trigger] normal[j]) == key_of(line) && lex_le(
            normal[j],
            line,
        )
}

/// Whether `normal` is the normal form of `lines`.
///
/// The normal form holds records of `lines` only, in strictly ascending
/// order and one for each key; and every record of `lines` is represented in
/// it by a line with the same key that precedes or equals it. So it holds,
/// for each key among the records, the smallest record with that key.
pub open spec fn is_normal_form(lines: Seq<Seq<char>>, normal: Seq<Seq<char>>) -> bool {
    &&& forall|j: int|
        0 <= j < normal.len() ==> is_record(#[trigger] normal[j]) && lines.contains(normal[j])
    &&& strictly_ascending(normal)
    &&& distinct_keys(normal)
    &&& forall|i: int|
        0 <= i < lines.len() && is_record(#[trigger] lines[i]) ==> represented(normal, lines[i])
}

/// A line that is represented stays so when the normal form grows.
pub proof fn lemma_represented_push(normal: Seq<Seq<char>>, extra: Seq<char>, line: Seq<char>)
    requires
        represented(normal, line),
    ensures
        represented(normal.push(extra), line),
{
    let j = choose|j: int|
        0 <= j < normal.len() && key_of(#[trigger] normal[j]) == key_of(line) && lex_le(
            normal[j],
            line,
        );
    assert(normal.push(extra)[j] == normal[j]);
}

/// Two records with one key have no line with another key between them.
pub proof fn lemma_same_key_run(low: Seq<char>, mid: Seq<char>, high: Seq<char>)
    requires
        low.contains(SEPARATOR),
        high.contains(SEPARATOR),
        key_of(low) == key_of(high),
        lex_le(low, mid),
        lex_le(mid, high),
    ensures
        key_of(mid) == key_of(low),
{
    lemma_key_is_prefix(low);
    lemma_key_is_prefix(high);
    lemma_lex_between(low, mid, high, key_of(low) + seq![SEPARATOR]);
    lemma_key_from_prefix(mid, low);
}

/// The normal form of `lines`: the one sequence that `is_normal_form`
/// admits for them.
pub open spec fn normal_form(lines: Seq<Seq<char>>) -> Seq<Seq<char>> {
    choose|normal: Seq<Seq<char>>| is_normal_form(lines, normal)
}

/// The lines joined into one text, a line feed between each two.
pub open spec fn joined(lines: Seq<Seq<char>>) -> Seq<char>
    decreases lines.len(),
{
    if lines.len() == 0 {
        Seq::empty()
    } else if lines.len() == 1 {
        lines[0]
    } else {
        joined(lines.drop_last()) + seq!['\n'] + lines.last()
    }
}

/// The text that a source text is normalised to.
pub open spec fn normalized(text: Seq<char>) -> Seq<char> {
    joined(normal_form(lines_of(text)))
}

/// Every line of one normal form stands in any other normal form of the
/// same lines.
proof fn lemma_normal_forms_share_lines(
    lines: Seq<Seq<char>>,
    a: Seq<Seq<char>>,
    b: Seq<Seq<char>>,
    j: int,
)
    requires
        is_normal_form(lines, a),
        is_normal_form(lines, b),
        0 <= j < a.len(),
    ensures
        b.contains(a[j]),
{
    let i = choose|i: int| 0 <= i < lines.len() && lines[i] == a[j];
    assert(represented(b, lines[i]));
    let k = choose|k: int|
        0 <= k < b.len() && key_of(#[trigger] b[k]) == key_of(a[j]) && lex_le(b[k], a[j]);
    let i2 = choose|i2: int| 0 <= i2 < lines.len() && lines[i2] == b[k];
    assert(represented(a, lines[i2]));
    let m = choose|m: int|
        0 <= m < a.len() && key_of(#[trigger] a[m]) == key_of(b[k]) && lex_le(a[m], b[k]);
    assert(m == j);
    lemma_lex_antisymmetric(a[j], b[k]);
}

/// Two strictly ascending sequences that hold the same lines are equal.
proof fn lemma_strictly_ascending_unique(a: Seq<Seq<char>>, b: Seq<Seq<char>>)
    requires
        strictly_ascending(a),
        strictly_ascending(b),
        forall|x: Seq<char>| a.contains(x) <==> b.contains(x),
    ensures
        a == b,
    decreases a.len(),
{
    if a.len() == 0 {
        if b.len() > 0 {
            assert(b.contains(b[0]));
        }
        assert(a =~= b);
    } else {
        assert(a.contains(a[0]));
        let la = a.last();
        let lb = b.last();
        assert(a.contains(la));
        assert(b.contains(lb));
        let k = choose|k: int| 0 <= k < b.len() && b[k] == la;
        let m = choose|m: int| 0 <= m < a.len() && a[m] == lb;
        if k < b.len() - 1 {
            assert(lex_lt(b[k], lb));
            if m < a.len() - 1 {
                assert(lex_lt(a[m], la));
                lemma_lex_asymmetric(la, lb);
            } else {
                lemma_lex_irreflexive(la);
            }
        }
        assert(la == lb);
        let a0 = a.drop_last();
        let b0 = b.drop_last();
        assert forall|x: Seq<char>| a0.contains(x) <==> b0.contains(x) by {
            if a0.contains(x) {
                let p = choose|p: int| 0 <= p < a0.len() && a0[p] == x;
                assert(a[p] == x);
                assert(a.contains(x));
                let q = choose|q: int| 0 <= q < b.len() && b[q] == x;
                if q == b.len() - 1 {
                    assert(lex_lt(a[p], la));
                    lemma_lex_irreflexive(la);
                }
                assert(b0[q] == x);
            }
            if b0.contains(x) {
                let q = choose|q: int| 0 <= q < b0.len() && b0[q] == x;
                assert(b[q] == x);
                assert(b.contains(x));
                let p = choose|p: int| 0 <= p < a.len() && a[p] == x;
                if p == a.len() - 1 {
                    assert(lex_lt(b[q], lb));
                    lemma_lex_irreflexive(lb);
                }
                assert(a0[p] == x);
            }
        }
        assert(strictly_ascending(a0)) by {
            assert forall|i: int, j: int| 0 <= i < j < a0.len() implies lex_lt(
                #[trigger] a0[i],
                #[trigger] a0[j],
            ) by {
                assert(a0[i] == a[i] && a0[j] == a[j]);
            }
        }
        assert(strictly_ascending(b0)) by {
            assert forall|i: int, j: int| 0 <= i < j < b0.len() implies lex_lt(
                #[trigger] b0[i],
                #[trigger] b0[j],
            ) by {
                assert(b0[i] == b[i] && b0[j] == b[j]);
            }
        }
        lemma_strictly_ascending_unique(a0, b0);
        assert(a =~= a0.push(la));
        assert(b =~= b0.push(lb));
    }
}

/// Lines have at most one normal form.
pub proof fn lemma_normal_form_unique(lines: Seq<Seq<char>>, a: Seq<Seq<char>>, b: Seq<Seq<char>>)
    requires
        is_normal_form(lines, a),
        is_normal_form(lines, b),
    ensures
        a == b,
{
    assert forall|x: Seq<char>| a.contains(x) <==> b.contains(x) by {
        if a.contains(x) {
            let j = choose|j: int| 0 <= j < a.len() && a[j] == x;
            lemma_normal_forms_share_lines(lines, a, b, j);
        }
        if b.contains(x) {
            let j = choose|j: int| 0 <= j < b.len() && b[j] == x;
            lemma_normal_forms_share_lines(lines, b, a, j);
        }
    }
    lemma_strictly_ascending_unique(a, b);
}

/// Where a line that is none of `normal` belongs among them: everything
/// before that place precedes the line, and the line precedes everything
/// from that place on.
proof fn lemma_insertion_point(normal: Seq<Seq<char>>, line: Seq<char>) -> (p: int)
    requires
        strictly_ascending(normal),
        !normal.contains(line),
    ensures
        0 <= p <= normal.len(),
        forall|i: int| 0 <= i < p ==> lex_lt(#[trigger] normal[i], line),
        forall|i: int| p <= i < normal.len() ==> lex_lt(line, #[trigger] normal[i]),
    decreases normal.len(),
{
    if normal.len() == 0 {
        0
    } else {
        let last = normal.last();
        assert(normal.contains(last));
        lemma_lex_total(last, line);
        if lex_lt(last, line) {
            assert forall|i: int| 0 <= i < normal.len() implies lex_lt(
                #[trigger] normal[i],
                line,
            ) by {
                if i < normal.len() - 1 {
                    lemma_lex_transitive(normal[i], last, line);
                }
            }
            normal.len() as int
        } else {
            let front = normal.drop_last();
            assert(strictly_ascending(front)) by {
                assert forall|i: int, j: int| 0 <= i < j < front.len() implies lex_lt(
                    #[trigger] front[i],
                    #[trigger] front[j],
                ) by {
                    assert(front[i] == normal[i] && front[j] == normal[j]);
                }
            }
            assert(!front.contains(line)) by {
                if front.contains(line) {
                    let k = choose|k: int| 0 <= k < front.len() && front[k] == line;
                    assert(normal[k] == line);
                }
            }
            let p = lemma_insertion_point(front, line);
            assert forall|i: int| 0 <= i < p implies lex_lt(#[trigger] normal[i], line) by {
                assert(front[i] == normal[i]);
            }
            assert forall|i: int| p <= i < normal.len() implies lex_lt(
                line,
                #[trigger] normal[i],
            ) by {
                if i < front.len() {
                    assert(front[i] == normal[i]);
                }
            }
            p
        }
    }
}

/// The normal form of `lines` with one more line, given that of `lines`.
proof fn lemma_normal_form_grows(
    lines: Seq<Seq<char>>,
    normal: Seq<Seq<char>>,
    line: Seq<char>,
) -> (grown: Seq<Seq<char>>)
    requires
        is_normal_form(lines, normal),
    ensures
        is_normal_form(lines.push(line), grown),
{
    let more = lines.push(line);
    assert forall|x: Seq<char>| lines.contains(x) implies more.contains(x) by {
        let i = choose|i: int| 0 <= i < lines.len() && lines[i] == x;
        assert(more[i] == x);
    }
    assert(more[lines.len() as int] == line);
    assert forall|i: int| 0 <= i < lines.len() implies #[trigger] more[i] == lines[i] by {}
    if !is_record(line) {
        normal
    } else if exists|j: int| 0 <= j < normal.len() && key_of(#[trigger] normal[j]) == key_of(line) {
        let j = choose|j: int|
            0 <= j < normal.len() && key_of(#[trigger] normal[j]) == key_of(line);
        let old = normal[j];
        lemma_lex_total(old, line);
        if lex_le(old, line) {
            assert(represented(normal, line));
            normal
        } else {
            let grown = normal.update(j, line);
            assert forall|i: int| 0 <= i < normal.len() && i != j implies (if i < j {
                lex_lt(#[trigger] normal[i], line)
            } else {
                lex_lt(line, normal[i])
            }) by {
                if i < j {
                    lemma_lex_total(normal[i], line);
                    if !lex_lt(normal[i], line) {
                        lemma_same_key_run(line, normal[i], old);
                    }
                } else {
                    lemma_lex_transitive(line, old, normal[i]);
                }
            }
            assert(strictly_ascending(grown)) by {
                assert forall|a: int, b: int| 0 <= a < b < grown.len() implies lex_lt(
                    #[trigger] grown[a],
                    #[trigger] grown[b],
                ) by {
                    if a != j {
                        assert(grown[a] == normal[a]);
                    }
                    if b != j {
                        assert(grown[b] == normal[b]);
                    }
                }
            }
            assert(distinct_keys(grown)) by {
                assert forall|a: int, b: int| 0 <= a < b < grown.len() implies key_of(
                    #[trigger] grown[a],
                ) != key_of(#[trigger] grown[b]) by {
                    assert(key_of(grown[a]) == key_of(normal[a]));
                    assert(key_of(grown[b]) == key_of(normal[b]));
                }
            }
            assert forall|k: int| 0 <= k < grown.len() implies is_record(#[trigger] grown[k])
                && more.contains(grown[k]) by {
                if k != j {
                    assert(grown[k] == normal[k]);
                }
            }
            assert forall|i: int| 0 <= i < more.len() && is_record(
                #[trigger] more[i],
            ) implies represented(grown, more[i]) by {
                if i < lines.len() {
                    let k = choose|k: int|
                        0 <= k < normal.len() && key_of(#[trigger] normal[k]) == key_of(lines[i])
                            && lex_le(normal[k], lines[i]);
                    if k == j {
                        if old != lines[i] {
                            lemma_lex_transitive(line, old, lines[i]);
                        }
                        assert(key_of(grown[j]) == key_of(more[i]) && lex_le(grown[j], more[i]));
                    } else {
                        assert(grown[k] == normal[k]);
                    }
                } else {
                    assert(key_of(grown[j]) == key_of(more[i]) && lex_le(grown[j], more[i]));
                }
            }
            grown
        }
    } else {
        assert(!normal.contains(line)) by {
            if normal.contains(line) {
                let k = choose|k: int| 0 <= k < normal.len() && normal[k] == line;
                assert(key_of(normal[k]) == key_of(line));
            }
        }
        let p = lemma_insertion_point(normal, line);
        let grown = normal.insert(p, line);
        normal.insert_ensures(p, line);
        assert(grown[p] == line);
        assert forall|k: int| 0 <= k < grown.len() implies #[trigger] grown[k] == (if k < p {
            normal[k]
        } else if k == p {
            line
        } else {
            normal[k - 1]
        }) by {}
        assert(strictly_ascending(grown)) by {
            assert forall|a: int, b: int| 0 <= a < b < grown.len() implies lex_lt(
                #[trigger] grown[a],
                #[trigger] grown[b],
            ) by {
                let x = if a < p { a } else { a - 1 };
                let y = if b < p { b } else { b - 1 };
                if a != p && b != p {
                    assert(grown[a] == normal[x] && grown[b] == normal[y]);
                } else if a == p {
                    assert(grown[b] == normal[y]);
                } else {
                    assert(grown[a] == normal[x]);
                }
            }
        }
        assert(distinct_keys(grown)) by {
            assert forall|a: int, b: int| 0 <= a < b < grown.len() implies key_of(
                #[trigger] grown[a],
            ) != key_of(#[trigger] grown[b]) by {
                let x = if a < p { a } else { a - 1 };
                let y = if b < p { b } else { b - 1 };
                if a != p && b != p {
                    assert(grown[a] == normal[x] && grown[b] == normal[y]);
                } else if a == p {
                    assert(grown[b] == normal[y]);
                } else {
                    assert(grown[a] == normal[x]);
                }
            }
        }
        assert forall|k: int| 0 <= k < grown.len() implies is_record(#[trigger] grown[k])
            && more.contains(grown[k]) by {
            let x = if k < p { k } else { k - 1 };
            if k != p {
                assert(grown[k] == normal[x]);
            }
        }
        assert forall|i: int| 0 <= i < more.len() && is_record(
            #[trigger] more[i],
        ) implies represented(grown, more[i]) by {
            if i < lines.len() {
                let k = choose|k: int|
                    0 <= k < normal.len() && key_of(#[trigger] normal[k]) == key_of(lines[i])
                        && lex_le(normal[k], lines[i]);
                let k2 = if k < p { k } else { k + 1 };
                assert(grown[k2] == normal[k]);
            } else {
                assert(key_of(grown[p]) == key_of(more[i]) && lex_le(grown[p], more[i]));
            }
        }
        grown
    }
}

/// Every sequence of lines has a normal form, and `normal_form` is it.
pub proof fn lemma_normal_form_exists(lines: Seq<Seq<char>>)
    ensures
        is_normal_form(lines, normal_form(lines)),
    decreases lines.len(),
{
    if lines.len() == 0 {
        assert(is_normal_form(lines, Seq::<Seq<char>>::empty()));
    } else {
        let front = lines.drop_last();
        lemma_normal_form_exists(front);
        let grown = lemma_normal_form_grows(front, normal_form(front), lines.last());
        assert(front.push(lines.last()) =~= lines);
    }
}

/// The normal form of `lines` is `normal` if and only if `normal` meets
/// `is_normal_form` for them.
pub proof fn lemma_normal_form_is(lines: Seq<Seq<char>>, normal: Seq<Seq<char>>)
    ensures
        is_normal_form(lines, normal) <==> normal == normal_form(lines),
{
    lemma_normal_form_exists(lines);
    if is_normal_form(lines, normal) {
        lemma_normal_form_unique(lines, normal, normal_form(lines));
    }
}

/// Only records reach the normal form: never a comment line, never a line
/// without a separator.
pub proof fn lemma_only_records_are_kept(lines: Seq<Seq<char>>, j: int)
    requires
        0 <= j < normal_form(lines).len(),
    ensures
        is_record(normal_form(lines)[j]),
        lines.contains(normal_form(lines)[j]),
{
    lemma_normal_form_exists(lines);
}

/// The line kept for a key is the smallest record with that key.
pub proof fn lemma_kept_line_is_smallest(lines: Seq<Seq<char>>, kept: Seq<char>, other: Seq<char>)
    requires
        normal_form(lines).contains(kept),
        lines.contains(other),
        is_record(other),
        key_of(other) == key_of(kept),
    ensures
        lex_le(kept, other),
{
    let normal = normal_form(lines);
    lemma_normal_form_exists(lines);
    let j = choose|j: int| 0 <= j < normal.len() && normal[j] == kept;
    let i = choose|i: int| 0 <= i < lines.len() && lines[i] == other;
    assert(represented(normal, lines[i]));
    let k = choose|k: int|
        0 <= k < normal.len() && key_of(#[trigger] normal[k]) == key_of(other) && lex_le(
            normal[k],
            other,
        );
    assert(k == j);
}

/// Of two records with one key and different values, the larger is never
/// kept, wherever the two stand among the lines.
pub proof fn lemma_smaller_value_wins(lines: Seq<Seq<char>>, smaller: Seq<char>, larger: Seq<char>)
    requires
        lines.contains(smaller),
        lines.contains(larger),
        is_record(smaller),
        is_record(larger),
        key_of(smaller) == key_of(larger),
        lex_lt(smaller, larger),
    ensures
        !normal_form(lines).contains(larger),
        exists|kept: Seq<char>|
            normal_form(lines).contains(kept) && key_of(kept) == key_of(smaller) && lex_le(
                kept,
                smaller,
            ),
{
    let normal = normal_form(lines);
    lemma_normal_form_exists(lines);
    let i = choose|i: int| 0 <= i < lines.len() && lines[i] == smaller;
    assert(represented(normal, lines[i]));
    let k = choose|k: int|
        0 <= k < normal.len() && key_of(#[trigger] normal[k]) == key_of(smaller) && lex_le(
            normal[k],
            smaller,
        );
    assert(normal.contains(normal[k]));
    if normal.contains(larger) {
        lemma_kept_line_is_smallest(lines, larger, smaller);
        lemma_lex_asymmetric(smaller, larger);
        lemma_lex_irreflexive(smaller);
    }
}

/// Two records with one key and different values normalise to the smaller
/// of the two alone, in whichever order they stand.
pub proof fn lemma_two_values_of_one_key(smaller: Seq<char>, larger: Seq<char>)
    requires
        is_record(smaller),
        is_record(larger),
        key_of(smaller) == key_of(larger),
        lex_lt(smaller, larger),
    ensures
        normal_form(seq![smaller, larger]) == seq![smaller],
        normal_form(seq![larger, smaller]) == seq![smaller],
{
    let kept = seq![smaller];
    let forth = seq![smaller, larger];
    let back = seq![larger, smaller];
    assert(forth[0] == smaller && back[1] == smaller);
    assert(kept[0] == smaller);
    assert forall|i: int| 0 <= i < 2 implies represented(kept, #[trigger] forth[i]) by {
        assert(key_of(kept[0]) == key_of(forth[i]) && lex_le(kept[0], forth[i]));
    }
    assert forall|i: int| 0 <= i < 2 implies represented(kept, #[trigger] back[i]) by {
        assert(key_of(kept[0]) == key_of(back[i]) && lex_le(kept[0], back[i]));
    }
    lemma_normal_form_is(forth, kept);
    lemma_normal_form_is(back, kept);
}

/// The normal form depends on nothing but which records the lines hold:
/// not on their order, not on how often one occurs, and not on the lines
/// that are no records.
pub proof fn lemma_normal_form_of_same_records(a: Seq<Seq<char>>, b: Seq<Seq<char>>)
    requires
        forall|x: Seq<char>| is_record(x) ==> (a.contains(x) <==> b.contains(x)),
    ensures
        normal_form(a) == normal_form(b),
{
    let normal = normal_form(a);
    lemma_normal_form_exists(a);
    assert forall|i: int| 0 <= i < b.len() && is_record(#[trigger] b[i]) implies represented(
        normal,
        b[i],
    ) by {
        assert(b.contains(b[i]));
        let k = choose|k: int| 0 <= k < a.len() && a[k] == b[i];
        assert(represented(normal, a[k]));
    }
    lemma_normal_form_is(b, normal);
}

/// A comment line, or a line without a separator, changes nothing wherever
/// it is put among the lines.
pub proof fn lemma_ignored_line(lines: Seq<Seq<char>>, at: int, ignored: Seq<char>)
    requires
        0 <= at <= lines.len(),
        !is_record(ignored),
    ensures
        normal_form(lines.insert(at, ignored)) == normal_form(lines),
{
    let more = lines.insert(at, ignored);
    lines.insert_ensures(at, ignored);
    assert forall|x: Seq<char>| is_record(x) implies (more.contains(x) <==> lines.contains(
        x,
    )) by {
        if more.contains(x) {
            let k = choose|k: int| 0 <= k < more.len() && more[k] == x;
            if k < at {
                assert(lines[k] == x);
            } else {
                assert(lines[k - 1] == x);
            }
        }
        if lines.contains(x) {
            let k = choose|k: int| 0 <= k < lines.len() && lines[k] == x;
            if k < at {
                assert(more[k] == x);
            } else {
                assert(more[k + 1] == x);
            }
        }
    }
    lemma_normal_form_of_same_records(more, lines);
}

/// Two texts with the same records normalise to the same text, whatever
/// else they hold and in whatever order. In particular, normalising one text
/// twice gives one result.
pub proof fn lemma_normalized_of_same_records(a: Seq<char>, b: Seq<char>)
    requires
        forall|x: Seq<char>|
            is_record(x) ==> (lines_of(a).contains(x) <==> lines_of(b).contains(x)),
    ensures
        normalized(a) == normalized(b),
{
    lemma_normal_form_of_same_records(lines_of(a), lines_of(b));
}

} // verus!
