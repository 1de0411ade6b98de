//! The line normaliser.
//!
//! Before the text reaches the tree decoder it is reduced to its records,
//! put in lexicographic order, and cleared of duplicate keys. Of the records
//! that share a key, the lexicographically smallest survives, wherever it
//! stood in the text.

use vstd::prelude::*;
use crate::line::{is_record, is_record_line, key_of, lines_of, same_key, split_lines, texts};
use crate::normal_form::{
    ascending, distinct_keys, is_normal_form, joined, lemma_normal_form_is,
    lemma_represented_push, lemma_same_key_run, normalized, represented,
    strictly_ascending,
};
use crate::order::{lemma_lex_le_transitive, lemma_lex_total, lex_le, lex_less, lex_lt};
use crate::text::{chars_of, string_of};

verus! {

/// Whether every index in `idx` is below `bound`.
spec fn in_bounds(idx: Seq<usize>, bound: nat) -> bool {
    forall|k: int| 0 <= k < idx.len() ==> #[trigger] idx[k] < bound
}

/// The lines that `idx` picks out of `lines`, in the order of `idx`.
spec fn picked(lines: Seq<Vec<char>>, idx: Seq<usize>) -> Seq<Seq<char>> {
    Seq::new(idx.len(), |k: int| lines[idx[k] as int]@)
}

/// Picking one more index picks one more line.
proof fn lemma_picked_push(lines: Seq<Vec<char>>, idx: Seq<usize>, x: usize)
    ensures
        picked(lines, idx.push(x)) == picked(lines, idx).push(lines[x as int]@),
{
    assert(picked(lines, idx.push(x)) =~= picked(lines, idx).push(lines[x as int]@));
}

/// Merges two ascending runs of lines into one.
fn merge(lines: &Vec<Vec<char>>, a: &Vec<usize>, b: &Vec<usize>) -> (merged: Vec<usize>)
    requires
        in_bounds(a@, lines@.len()),
        in_bounds(b@, lines@.len()),
        ascending(picked(lines@, a@)),
        ascending(picked(lines@, b@)),
    ensures
        in_bounds(merged@, lines@.len()),
        ascending(picked(lines@, merged@)),
        forall|x: Seq<char>|
            picked(lines@, merged@).contains(x) <==> picked(lines@, a@).contains(x) || picked(
                lines@,
                b@,
            ).contains(x),
{
    let ghost left = picked(lines@, a@);
    let ghost right = picked(lines@, b@);
    let mut out: Vec<usize> = Vec::new();
    let mut i: usize = 0;
    let mut j: usize = 0;
    while i < a.len() || j < b.len()
        invariant
            i <= a.len(),
            j <= b.len(),
            left == picked(lines@, a@),
            right == picked(lines@, b@),
            in_bounds(a@, lines@.len()),
            in_bounds(b@, lines@.len()),
            ascending(left),
            ascending(right),
            in_bounds(out@, lines@.len()),
            ascending(picked(lines@, out@)),
            forall|k: int|
                0 <= k < out.len() ==> left.contains(#[trigger] picked(lines@, out@)[k])
                    || right.contains(picked(lines@, out@)[k]),
            forall|p: int| 0 <= p < i ==> picked(lines@, out@).contains(#[trigger] left[p]),
            forall|q: int| 0 <= q < j ==> picked(lines@, out@).contains(#[trigger] right[q]),
            forall|k: int, p: int|
                0 <= k < out.len() && i <= p < a.len() ==> lex_le(
                    #[trigger] picked(lines@, out@)[k],
                    #[trigger] left[p],
                ),
            forall|k: int, q: int|
                0 <= k < out.len() && j <= q < b.len() ==> lex_le(
                    #[trigger] picked(lines@, out@)[k],
                    #[trigger] right[q],
                ),
        decreases a.len() - i + b.len() - j,
    {
        let ghost before = picked(lines@, out@);
        let take_left = if i == a.len() {
            false
        } else if j == b.len() {
            true
        } else {
            !lex_less(&lines[b[j]], &lines[a[i]])
        };
        if take_left {
            let x = a[i];
            proof {
                lemma_picked_push(lines@, out@, x);
                assert(left[i as int] == lines@[x as int]@);
                assert forall|q: int| j <= q < b.len() implies lex_le(
                    left[i as int],
                    #[trigger] right[q],
                ) by {
                    lemma_lex_total(left[i as int], right[j as int]);
                    if q > j {
                        lemma_lex_le_transitive(left[i as int], right[j as int], right[q]);
                    }
                }
            }
            out.push(x);
            i += 1;
        } else {
            let x = b[j];
            proof {
                lemma_picked_push(lines@, out@, x);
                assert(right[j as int] == lines@[x as int]@);
                assert forall|p: int| i <= p < a.len() implies lex_le(
                    right[j as int],
                    #[trigger] left[p],
                ) by {
                    if p > i {
                        lemma_lex_le_transitive(right[j as int], left[i as int], left[p]);
                    }
                }
            }
            out.push(x);
            j += 1;
        }
        proof {
            let after = picked(lines@, out@);
            let last = after.len() - 1;
            assert forall|k: int| 0 <= k < before.len() implies after[k] == before[k] by {}
            assert forall|p: int| 0 <= p < i implies after.contains(#[trigger] left[p]) by {
                if before.contains(left[p]) {
                    let k = choose|k: int| 0 <= k < before.len() && before[k] == left[p];
                    assert(after[k] == left[p]);
                } else {
                    assert(after[last] == left[p]);
                }
            }
            assert forall|q: int| 0 <= q < j implies after.contains(#[trigger] right[q]) by {
                if before.contains(right[q]) {
                    let k = choose|k: int| 0 <= k < before.len() && before[k] == right[q];
                    assert(after[k] == right[q]);
                } else {
                    assert(after[last] == right[q]);
                }
            }
        }
    }
    proof {
        let all = picked(lines@, out@);
        assert forall|x: Seq<char>| all.contains(x) <==> left.contains(x) || right.contains(
            x,
        ) by {
            if left.contains(x) {
                let p = choose|p: int| 0 <= p < left.len() && left[p] == x;
                assert(all.contains(left[p]));
            }
            if right.contains(x) {
                let q = choose|q: int| 0 <= q < right.len() && right[q] == x;
                assert(all.contains(right[q]));
            }
            if all.contains(x) {
                let k = choose|k: int| 0 <= k < all.len() && all[k] == x;
                assert(left.contains(all[k]) || right.contains(all[k]));
            }
        }
    }
    out
}

/// Puts the lines that `idx` picks in ascending order.
fn sort_lines(lines: &Vec<Vec<char>>, idx: Vec<usize>) -> (sorted: Vec<usize>)
    requires
        in_bounds(idx@, lines@.len()),
    ensures
        in_bounds(sorted@, lines@.len()),
        ascending(picked(lines@, sorted@)),
        forall|x: Seq<char>|
            picked(lines@, sorted@).contains(x) <==> picked(lines@, idx@).contains(x),
    decreases idx@.len(),
{
    let n = idx.len();
    if n <= 1 {
        return idx;
    }
    let mid = n / 2;
    let mut front: Vec<usize> = Vec::new();
    let mut back: Vec<usize> = Vec::new();
    let mut k: usize = 0;
    while k < n
        invariant
            n == idx.len(),
            0 < mid < n,
            k <= n,
            front@ == idx@.take(if k < mid { k as int } else { mid as int }),
            back@ == idx@.subrange(mid as int, if k < mid { mid as int } else { k as int }),
        decreases n - k,
    {
        if k < mid {
            front.push(idx[k]);
        } else {
            back.push(idx[k]);
        }
        k += 1;
    }
    let ghost whole = picked(lines@, idx@);
    let ghost first = picked(lines@, front@);
    let ghost second = picked(lines@, back@);
    proof {
        assert forall|x: Seq<char>| whole.contains(x) <==> first.contains(x) || second.contains(
            x,
        ) by {
            if whole.contains(x) {
                let p = choose|p: int| 0 <= p < whole.len() && whole[p] == x;
                if p < mid {
                    assert(first[p] == x);
                } else {
                    assert(second[p - mid] == x);
                }
            }
            if first.contains(x) {
                let p = choose|p: int| 0 <= p < first.len() && first[p] == x;
                assert(whole[p] == x);
            }
            if second.contains(x) {
                let p = choose|p: int| 0 <= p < second.len() && second[p] == x;
                assert(whole[p + mid] == x);
            }
        }
    }
    let front = sort_lines(lines, front);
    let back = sort_lines(lines, back);
    merge(lines, &front, &back)
}

/// Picks the records among `lines`, in the order in which they stand.
fn record_indices(lines: &Vec<Vec<char>>) -> (idx: Vec<usize>)
    ensures
        in_bounds(idx@, lines@.len()),
        forall|k: int| 0 <= k < idx.len() ==> is_record(#[trigger] picked(lines@, idx@)[k]),
        forall|i: int|
            0 <= i < lines.len() && is_record(#[trigger] lines@[i]@) ==> picked(
                lines@,
                idx@,
            ).contains(lines@[i]@),
{
    let n = lines.len();
    let mut idx: Vec<usize> = Vec::new();
    let mut i: usize = 0;
    while i < n
        invariant
            n == lines.len(),
            i <= n,
            in_bounds(idx@, lines@.len()),
            forall|k: int| 0 <= k < idx.len() ==> is_record(#[trigger] picked(lines@, idx@)[k]),
            forall|m: int|
                0 <= m < i && is_record(#[trigger] lines@[m]@) ==> picked(lines@, idx@).contains(
                    lines@[m]@,
                ),
        decreases n - i,
    {
        if is_record_line(&lines[i]) {
            let ghost before = picked(lines@, idx@);
            proof {
                lemma_picked_push(lines@, idx@, i);
            }
            idx.push(i);
            proof {
                let after = picked(lines@, idx@);
                assert forall|m: int| 0 <= m <= i && is_record(#[trigger] lines@[m]@) implies after.contains(
                    lines@[m]@,
                ) by {
                    if m < i {
                        let k = choose|k: int| 0 <= k < before.len() && before[k] == lines@[m]@;
                        assert(after[k] == lines@[m]@);
                    } else {
                        assert(after[after.len() - 1] == lines@[m]@);
                    }
                }
            }
        }
        i += 1;
    }
    idx
}

/// Keeps the first line of each run of lines that share a key.
fn first_of_each_key(lines: &Vec<Vec<char>>, sorted: &Vec<usize>) -> (kept: Vec<usize>)
    requires
        in_bounds(sorted@, lines@.len()),
        ascending(picked(lines@, sorted@)),
        forall|k: int| 0 <= k < sorted.len() ==> is_record(#[trigger] picked(lines@, sorted@)[k]),
    ensures
        in_bounds(kept@, lines@.len()),
        forall|k: int|
            0 <= k < kept.len() ==> picked(lines@, sorted@).contains(
                #[trigger] picked(lines@, kept@)[k],
            ),
        strictly_ascending(picked(lines@, kept@)),
        distinct_keys(picked(lines@, kept@)),
        forall|m: int|
            0 <= m < sorted.len() ==> represented(
                picked(lines@, kept@),
                #[trigger] picked(lines@, sorted@)[m],
            ),
{
    let ghost run = picked(lines@, sorted@);
    let n = sorted.len();
    let mut kept: Vec<usize> = Vec::new();
    let mut i: usize = 0;
    while i < n
        invariant
            n == sorted.len(),
            i <= n,
            run == picked(lines@, sorted@),
            in_bounds(sorted@, lines@.len()),
            ascending(run),
            forall|k: int| 0 <= k < run.len() ==> is_record(#[trigger] run[k]),
            in_bounds(kept@, lines@.len()),
            forall|k: int|
                0 <= k < kept.len() ==> run.contains(#[trigger] picked(lines@, kept@)[k]),
            strictly_ascending(picked(lines@, kept@)),
            distinct_keys(picked(lines@, kept@)),
            forall|k: int, m: int|
                0 <= k < kept.len() && i <= m < n ==> lex_le(
                    #[trigger] picked(lines@, kept@)[k],
                    #[trigger] run[m],
                ),
            forall|m: int| 0 <= m < i ==> represented(picked(lines@, kept@), #[trigger] run[m]),
        decreases n - i,
    {
        let x = sorted[i];
        let ghost before = picked(lines@, kept@);
        let ghost line = run[i as int];
        assert(line == lines@[x as int]@);
        let repeats = kept.len() > 0 && same_key(&lines[kept[kept.len() - 1]], &lines[x]);
        if repeats {
            assert(represented(before, line)) by {
                let j = before.len() - 1;
                assert(key_of(before[j]) == key_of(line) && lex_le(before[j], line));
            }
        } else {
            proof {
                lemma_picked_push(lines@, kept@, x);
                let after = before.push(line);
                assert forall|k: int| 0 <= k < before.len() implies key_of(
                    #[trigger] before[k],
                ) != key_of(line) by {
                    let j = before.len() - 1;
                    if k < j && key_of(before[k]) == key_of(line) {
                        assert(run.contains(before[k]));
                        lemma_same_key_run(before[k], before[j], line);
                    }
                }
                assert forall|k: int| 0 <= k < before.len() implies lex_lt(
                    #[trigger] before[k],
                    line,
                ) by {
                    assert(key_of(before[k]) != key_of(line));
                }
                assert forall|m: int| 0 <= m <= i implies represented(after, #[trigger] run[m]) by {
                    if m < i {
                        lemma_represented_push(before, line, run[m]);
                    } else {
                        assert(after[after.len() - 1] == line);
                    }
                }
                assert forall|k: int| 0 <= k < after.len() implies run.contains(
                    #[trigger] after[k],
                ) by {
                    if k < before.len() {
                        assert(after[k] == before[k]);
                    }
                }
                assert(strictly_ascending(after));
                assert(distinct_keys(after));
            }
            kept.push(x);
        }
        i += 1;
    }
    kept
}

/// Reduces `lines` to their normal form, as indices into `lines`.
fn normal_indices(lines: &Vec<Vec<char>>) -> (kept: Vec<usize>)
    ensures
        in_bounds(kept@, lines@.len()),
        is_normal_form(texts(lines@), picked(lines@, kept@)),
{
    let records = record_indices(lines);
    let ghost found = picked(lines@, records@);
    let sorted = sort_lines(lines, records);
    let ghost run = picked(lines@, sorted@);
    assert forall|k: int| 0 <= k < run.len() implies is_record(#[trigger] run[k]) by {
        assert(found.contains(run[k]));
    }
    let kept = first_of_each_key(lines, &sorted);
    proof {
        let all = texts(lines@);
        let normal = picked(lines@, kept@);
        assert forall|j: int| 0 <= j < normal.len() implies is_record(#[trigger] normal[j])
            && all.contains(normal[j]) by {
            assert(run.contains(normal[j]));
            assert(found.contains(normal[j]));
            let k = choose|k: int| 0 <= k < found.len() && found[k] == normal[j];
            assert(all[records@[k] as int] == normal[j]);
        }
        assert forall|i: int| 0 <= i < all.len() && is_record(#[trigger] all[i]) implies represented(
            normal,
            all[i],
        ) by {
            assert(is_record(lines@[i]@));
            assert(found.contains(all[i]));
            assert(run.contains(all[i]));
            let m = choose|m: int| 0 <= m < run.len() && run[m] == all[i];
            assert(represented(normal, run[m]));
        }
    }
    kept
}

/// Joins the lines that `idx` picks, a line feed between each two.
fn join(lines: &Vec<Vec<char>>, idx: &Vec<usize>) -> (text: Vec<char>)
    requires
        in_bounds(idx@, lines@.len()),
    ensures
        text@ == joined(picked(lines@, idx@)),
{
    let ghost all = picked(lines@, idx@);
    let n = idx.len();
    let mut text: Vec<char> = Vec::new();
    let mut k: usize = 0;
    while k < n
        invariant
            n == idx.len(),
            k <= n,
            all == picked(lines@, idx@),
            in_bounds(idx@, lines@.len()),
            text@ == joined(all.take(k as int)),
        decreases n - k,
    {
        let line = &lines[idx[k]];
        let ghost upto = all.take(k + 1);
        proof {
            assert(upto.drop_last() == all.take(k as int));
            assert(upto.last() == line@);
        }
        if k > 0 {
            text.push('\n');
        }
        let ghost base = text@;
        let len = line.len();
        let mut c: usize = 0;
        while c < len
            invariant
                len == line.len(),
                c <= len,
                text@ == base + line@.take(c as int),
            decreases len - c,
        {
            text.push(line[c]);
            c += 1;
        }
        assert(line@.take(len as int) == line@);
        assert(text@ == joined(upto));
        k += 1;
    }
    assert(all.take(n as int) == all);
    text
}

/// Normalises a source text for the tree decoder.
///
/// The text is split into lines. Lines without a separator and comment
/// lines are dropped. Of the remaining lines that share a key only the
/// lexicographically smallest is kept, and the kept lines are joined in
/// ascending lexicographic order.
pub fn normalize(text: &str) -> (normal: String)
    ensures
        normal@ == normalized(text@),
{
    let chars = chars_of(text);
    let lines = split_lines(&chars);
    let kept = normal_indices(&lines);
    proof {
        lemma_normal_form_is(lines_of(text@), picked(lines@, kept@));
    }
    let out = join(&lines, &kept);
    string_of(&out)
}

} // verus!
