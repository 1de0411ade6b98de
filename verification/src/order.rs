//! The lexicographic order on lines.
//!
//! Lines are compared character by character, by code point; a proper prefix
//! precedes every line it is a prefix of. This is the order in which two
//! strings compare byte by byte in their UTF-8 encoding.

use vstd::prelude::*;

verus! {

/// Whether `a` precedes `b` in lexicographic order.
pub open spec fn lex_lt(a: Seq<char>, b: Seq<char>) -> bool
    decreases a.len(),
{
    if a.len() == 0 {
        b.len() > 0
    } else if b.len() == 0 {
        false
    } else if a.first() == b.first() {
        lex_lt(a.drop_first(), b.drop_first())
    } else {
        (a.first() as u32) < (b.first() as u32)
    }
}

/// Whether `a` precedes `b` or equals it.
pub open spec fn lex_le(a: Seq<char>, b: Seq<char>) -> bool {
    a == b || lex_lt(a, b)
}

/// Whether `a` and `b` agree on their first `k` characters and `a` falls
/// below `b` right after them: `a` ends there and `b` goes on, or the next
/// character of `a` has the smaller code point.
pub open spec fn falls_below_at(a: Seq<char>, b: Seq<char>, k: int) -> bool {
    &&& 0 <= k <= a.len()
    &&& k < b.len()
    &&& a.take(k) == b.take(k)
    &&& k == a.len() || (a[k] as u32) < (b[k] as u32)
}

/// A line precedes another exactly when it falls below it at the first
/// place where the two part.
pub proof fn lemma_lex_lt_is_first_difference(a: Seq<char>, b: Seq<char>)
    ensures
        lex_lt(a, b) <==> exists|k: int| falls_below_at(a, b, k),
    decreases a.len(),
{
    let a0 = a.drop_first();
    let b0 = b.drop_first();
    if lex_lt(a, b) {
        if a.len() == 0 || a.first() != b.first() {
            assert(a.take(0) =~= b.take(0));
            assert(falls_below_at(a, b, 0));
        } else {
            lemma_lex_lt_is_first_difference(a0, b0);
            let k = choose|k: int| falls_below_at(a0, b0, k);
            assert(a.take(k + 1) =~= seq![a.first()] + a0.take(k));
            assert(b.take(k + 1) =~= seq![b.first()] + b0.take(k));
            assert(falls_below_at(a, b, k + 1));
        }
    }
    if exists|k: int| falls_below_at(a, b, k) {
        let k = choose|k: int| falls_below_at(a, b, k);
        if k > 0 {
            assert(a.take(k)[0] == b.take(k)[0]);
            assert(a0.take(k - 1) =~= a.take(k).drop_first());
            assert(b0.take(k - 1) =~= b.take(k).drop_first());
            assert(falls_below_at(a0, b0, k - 1));
            lemma_lex_lt_is_first_difference(a0, b0);
        }
    }
}

/// No line precedes itself.
pub proof fn lemma_lex_irreflexive(a: Seq<char>)
    ensures
        !lex_lt(a, a),
    decreases a.len(),
{
    if a.len() > 0 {
        lemma_lex_irreflexive(a.drop_first());
    }
}

/// Of two lines, at most one precedes the other.
pub proof fn lemma_lex_asymmetric(a: Seq<char>, b: Seq<char>)
    requires
        lex_lt(a, b),
    ensures
        !lex_lt(b, a),
    decreases a.len(),
{
    if a.len() > 0 && b.len() > 0 && a.first() == b.first() {
        lemma_lex_asymmetric(a.drop_first(), b.drop_first());
    }
}

/// Precedence is transitive.
pub proof fn lemma_lex_transitive(a: Seq<char>, b: Seq<char>, c: Seq<char>)
    requires
        lex_lt(a, b),
        lex_lt(b, c),
    ensures
        lex_lt(a, c),
    decreases a.len(),
{
    if a.len() > 0 && b.len() > 0 && c.len() > 0 && a.first() == b.first() && b.first()
        == c.first() {
        lemma_lex_transitive(a.drop_first(), b.drop_first(), c.drop_first());
    }
}

/// Any two distinct lines are ordered one way or the other.
pub proof fn lemma_lex_total(a: Seq<char>, b: Seq<char>)
    ensures
        lex_lt(a, b) || a == b || lex_lt(b, a),
    decreases a.len(),
{
    if a.len() == 0 || b.len() == 0 {
        if a.len() == 0 && b.len() == 0 {
            assert(a =~= b);
        }
    } else if a.first() == b.first() {
        lemma_lex_total(a.drop_first(), b.drop_first());
        if a.drop_first() == b.drop_first() {
            assert(a =~= seq![a.first()] + a.drop_first());
            assert(b =~= seq![b.first()] + b.drop_first());
        }
    } else {
        let x = a.first();
        let y = b.first();
        vstd::utf8::char_u32_cast(x, x as u32);
        vstd::utf8::char_u32_cast(y, y as u32);
    }
}

/// The non-strict order is transitive.
pub proof fn lemma_lex_le_transitive(a: Seq<char>, b: Seq<char>, c: Seq<char>)
    requires
        lex_le(a, b),
        lex_le(b, c),
    ensures
        lex_le(a, c),
{
    if a != b && b != c {
        lemma_lex_transitive(a, b, c);
    }
}

/// Two lines that each precede or equal the other are the same line.
pub proof fn lemma_lex_antisymmetric(a: Seq<char>, b: Seq<char>)
    requires
        lex_le(a, b),
        lex_le(b, a),
    ensures
        a == b,
{
    if a != b {
        lemma_lex_asymmetric(a, b);
    }
}

/// Lines that share a prefix form a contiguous run: whatever lies between
/// two of them starts with that prefix too.
pub proof fn lemma_lex_between(low: Seq<char>, mid: Seq<char>, high: Seq<char>, prefix: Seq<char>)
    requires
        prefix.is_prefix_of(low),
        prefix.is_prefix_of(high),
        lex_le(low, mid),
        lex_le(mid, high),
    ensures
        prefix.is_prefix_of(mid),
    decreases prefix.len(),
{
    if prefix.len() == 0 {
        assert(mid.subrange(0, 0) =~= prefix);
    } else {
        assert(low.first() == prefix.first()) by {
            assert(low.subrange(0, prefix.len() as int)[0] == prefix[0]);
        }
        assert(high.first() == prefix.first()) by {
            assert(high.subrange(0, prefix.len() as int)[0] == prefix[0]);
        }
        assert(mid.len() > 0 && mid.first() == prefix.first());
        let rest = prefix.drop_first();
        assert(rest.is_prefix_of(low.drop_first())) by {
            assert(low.drop_first().subrange(0, rest.len() as int) =~= low.subrange(
                0,
                prefix.len() as int,
            ).drop_first());
        }
        assert(rest.is_prefix_of(high.drop_first())) by {
            assert(high.drop_first().subrange(0, rest.len() as int) =~= high.subrange(
                0,
                prefix.len() as int,
            ).drop_first());
        }
        assert(lex_le(low.drop_first(), mid.drop_first()));
        assert(lex_le(mid.drop_first(), high.drop_first()));
        lemma_lex_between(low.drop_first(), mid.drop_first(), high.drop_first(), rest);
        assert(mid.subrange(0, prefix.len() as int) =~= seq![mid.first()] + mid.drop_first().subrange(
            0,
            rest.len() as int,
        ));
        assert(prefix =~= seq![prefix.first()] + rest);
    }
}

/// Decides whether line `a` precedes line `b`.
pub fn lex_less(a: &Vec<char>, b: &Vec<char>) -> (less: bool)
    ensures
        less == lex_lt(a@, b@),
{
    let mut i: usize = 0;
    assert(a@.skip(0) == a@ && b@.skip(0) == b@);
    loop
        invariant
            i <= a.len(),
            i <= b.len(),
            lex_lt(a@, b@) == lex_lt(a@.skip(i as int), b@.skip(i as int)),
        decreases a.len() - i,
    {
        let ghost ra = a@.skip(i as int);
        let ghost rb = b@.skip(i as int);
        if i == a.len() {
            return i < b.len();
        }
        if i == b.len() {
            return false;
        }
        let x = a[i];
        let y = b[i];
        assert(ra.first() == x && rb.first() == y);
        if x != y {
            return (x as u32) < (y as u32);
        }
        assert(ra.drop_first() == a@.skip(i + 1));
        assert(rb.drop_first() == b@.skip(i + 1));
        i += 1;
    }
}

} // verus!
