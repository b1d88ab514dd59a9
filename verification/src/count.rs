//! Counting entries of a sequence over an index range.
//!
//! `count_range(s, p, a, b)` is the number of positions `m` in `[a, b)` with
//! `p(s[m])`. The lemmas here split, bound and compare such counts, and carry
//! a count across a rearrangement (equal multisets give equal counts).

use vstd::prelude::*;

verus! {

/// Number of entries of `s` in positions `[a, b)` that satisfy `p`.
pub open spec fn count_range<A>(s: Seq<A>, p: spec_fn(A) -> bool, a: int, b: int) -> nat
    decreases b - a,
{
    if a < 0 || b > s.len() || a >= b {
        0
    } else {
        count_range(s, p, a, b - 1) + (if p(s[b - 1]) {
            1nat
        } else {
            0nat
        })
    }
}

/// Peeling a count from the left: the first position counts one when it
/// satisfies the predicate.
pub proof fn lemma_count_unfold_left<A>(s: Seq<A>, p: spec_fn(A) -> bool, a: int, b: int)
    requires
        0 <= a < b <= s.len(),
    ensures
        count_range(s, p, a, b) == (if p(s[a]) {
            1nat
        } else {
            0nat
        }) + count_range(s, p, a + 1, b),
    decreases b - a,
{
    if a + 1 < b {
        lemma_count_unfold_left(s, p, a, b - 1);
        assert(count_range(s, p, a, b) == count_range(s, p, a, b - 1) + (if p(s[b - 1]) {
            1nat
        } else {
            0nat
        }));
        assert(count_range(s, p, a + 1, b) == count_range(s, p, a + 1, b - 1) + (if p(s[b - 1]) {
            1nat
        } else {
            0nat
        }));
    } else {
        assert(count_range(s, p, a + 1, b) == 0);
        assert(count_range(s, p, a, b) == count_range(s, p, a, a) + (if p(s[a]) {
            1nat
        } else {
            0nat
        }));
    }
}

/// A count over `[a, c)` splits at any middle point `b`.
pub proof fn lemma_count_split<A>(s: Seq<A>, p: spec_fn(A) -> bool, a: int, b: int, c: int)
    requires
        0 <= a <= b <= c <= s.len(),
    ensures
        count_range(s, p, a, c) == count_range(s, p, a, b) + count_range(s, p, b, c),
    decreases c - b,
{
    if b < c {
        lemma_count_split(s, p, a, b, c - 1);
    }
}

/// A count never exceeds the width of its range.
pub proof fn lemma_count_le<A>(s: Seq<A>, p: spec_fn(A) -> bool, a: int, b: int)
    requires
        0 <= a <= b <= s.len(),
    ensures
        count_range(s, p, a, b) <= b - a,
    decreases b - a,
{
    if a < b {
        lemma_count_le(s, p, a, b - 1);
    }
}

/// When every entry of the range satisfies the predicate, the count is the
/// full width.
pub proof fn lemma_count_all<A>(s: Seq<A>, p: spec_fn(A) -> bool, a: int, b: int)
    requires
        0 <= a <= b <= s.len(),
        forall|m: int| a <= m < b ==> p(s[m]),
    ensures
        count_range(s, p, a, b) == b - a,
    decreases b - a,
{
    if a < b {
        lemma_count_all(s, p, a, b - 1);
    }
}

/// When no entry of the range satisfies the predicate, the count is zero.
pub proof fn lemma_count_none<A>(s: Seq<A>, p: spec_fn(A) -> bool, a: int, b: int)
    requires
        0 <= a <= b <= s.len(),
        forall|m: int| a <= m < b ==> !p(s[m]),
    ensures
        count_range(s, p, a, b) == 0,
    decreases b - a,
{
    if a < b {
        lemma_count_none(s, p, a, b - 1);
    }
}

/// Two sequences that agree on a range, entry by entry up to the predicates,
/// have the same count there.
pub proof fn lemma_count_agree<A, B>(
    s: Seq<A>,
    t: Seq<B>,
    p: spec_fn(A) -> bool,
    q: spec_fn(B) -> bool,
    a: int,
    b: int,
)
    requires
        0 <= a <= b <= s.len(),
        b <= t.len(),
        forall|m: int| a <= m < b ==> p(s[m]) == q(t[m]),
    ensures
        count_range(s, p, a, b) == count_range(t, q, a, b),
    decreases b - a,
{
    if a < b {
        lemma_count_agree(s, t, p, q, a, b - 1);
    }
}

/// A count is unchanged by shifting both the range and the sequence, as long
/// as the entries line up.
pub proof fn lemma_count_offset<A, B>(
    s: Seq<A>,
    t: Seq<B>,
    p: spec_fn(A) -> bool,
    q: spec_fn(B) -> bool,
    a: int,
    b: int,
    off: int,
)
    requires
        0 <= a <= b <= s.len(),
        0 <= a + off <= b + off <= t.len(),
        forall|m: int| a <= m < b ==> p(s[m]) == q(t[m + off]),
    ensures
        count_range(s, p, a, b) == count_range(t, q, a + off, b + off),
    decreases b - a,
{
    if a < b {
        lemma_count_offset(s, t, p, q, a, b - 1, off);
    }
}

/// Overwriting one position inside the range adjusts the count by what the
/// old and new entries contribute.
pub proof fn lemma_count_update<A>(
    s: Seq<A>,
    p: spec_fn(A) -> bool,
    pos: int,
    v: A,
    a: int,
    b: int,
)
    requires
        0 <= a <= pos < b <= s.len(),
    ensures
        count_range(s.update(pos, v), p, a, b) + (if p(s[pos]) {
            1nat
        } else {
            0nat
        }) == count_range(s, p, a, b) + (if p(v) {
            1nat
        } else {
            0nat
        }),
{
    let t = s.update(pos, v);
    lemma_count_split(s, p, a, pos, b);
    lemma_count_unfold_left(s, p, pos, b);
    lemma_count_split(t, p, a, pos, b);
    lemma_count_unfold_left(t, p, pos, b);
    lemma_count_agree(s, t, p, p, a, pos);
    lemma_count_agree(s, t, p, p, pos + 1, b);
}

/// Rearranging a sequence does not change a full count: sequences with equal
/// multisets have equal counts over their whole extent.
pub proof fn lemma_count_transfer<A>(s: Seq<A>, t: Seq<A>, p: spec_fn(A) -> bool)
    requires
        s.to_multiset() == t.to_multiset(),
    ensures
        count_range(s, p, 0, s.len() as int) == count_range(t, p, 0, t.len() as int),
    decreases s.len(),
{
    broadcast use vstd::seq_lib::group_to_multiset_ensures;

    assert(s.len() == s.to_multiset().len());
    assert(t.len() == t.to_multiset().len());
    if s.len() > 0 {
        let n = s.len() as int;
        let x = s[n - 1];
        assert(s.to_multiset().count(x) > 0) by {
            assert(s.contains(x));
        }
        assert(t.to_multiset().count(x) > 0);
        assert(t.contains(x));
        let j = choose|j: int| 0 <= j < t.len() && t[j] == x;
        let s1 = s.remove(n - 1);
        let t1 = t.remove(j);
        assert(s1.to_multiset() == s.to_multiset().remove(x));
        assert(t1.to_multiset() == t.to_multiset().remove(x));
        lemma_count_transfer(s1, t1, p);
        // peel x off the right end of s
        assert(count_range(s, p, 0, n) == count_range(s, p, 0, n - 1) + (if p(x) {
            1nat
        } else {
            0nat
        }));
        lemma_count_agree(s1, s, p, p, 0, n - 1);
        // peel x out of the middle of t
        let nt = t.len() as int;
        lemma_count_split(t, p, 0, j, nt);
        lemma_count_unfold_left(t, p, j, nt);
        lemma_count_split(t1, p, 0, j, nt - 1);
        lemma_count_agree(t1, t, p, p, 0, j);
        lemma_count_offset(t1, t, p, p, j, nt - 1, 1);
    }
}

} // verus!
