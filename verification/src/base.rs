//! What a superpermutation is, and the common contract of the two
//! construction/verification strategies.

use vstd::prelude::*;
use vstd::set_lib::lemma_len_subset;

use crate::count::{count_range, lemma_count_all, lemma_count_split, lemma_count_unfold_left};
use crate::perms::{distinct_seq, fact, nonzero_seq, seq_starts_with};

verus! {

/// A permutation of the alphabet `1..=n`: `n` pairwise distinct tokens, each
/// in the alphabet — hence each alphabet token exactly once.
pub open spec fn is_perm_of(q: Seq<usize>, n: nat) -> bool {
    &&& q.len() == n
    &&& distinct_seq(q)
    &&& forall|i: int| 0 <= i < q.len() ==> 1 <= #[trigger] q[i] <= n
}

/// `w` stands in `s` at offset `o`.
pub open spec fn window_at(s: Seq<usize>, w: Seq<usize>, o: int) -> bool {
    &&& 0 <= o
    &&& o + w.len() <= s.len()
    &&& forall|m: int| 0 <= m < w.len() ==> s[o + m] == #[trigger] w[m]
}

/// `w` occurs somewhere in `s` as a contiguous window.
pub open spec fn contains_window(s: Seq<usize>, w: Seq<usize>) -> bool {
    exists|o: int| #[trigger] window_at(s, w, o)
}

/// `w` stands in `s` at some offset below `bound`: what a scan up to that
/// offset has seen.
pub open spec fn covered_upto(s: Seq<usize>, w: Seq<usize>, bound: int) -> bool {
    exists|o: int| o < bound && #[trigger] window_at(s, w, o)
}

/// `s` is a superpermutation for `1..=n`: every permutation of the alphabet
/// occurs in it as a contiguous window.
pub open spec fn is_superperm(s: Seq<usize>, n: nat) -> bool {
    forall|q: Seq<usize>| #[trigger] is_perm_of(q, n) ==> contains_window(s, q)
}

/// The identity sequence `[1, 2, ..., n]`: the base sequence of every run.
pub open spec fn idseq(n: nat) -> Seq<usize> {
    Seq::new(n, |i: int| (i + 1) as usize)
}

/// `a` comes strictly before `b` in lexicographic order: they agree up to
/// some position where `a` holds the smaller token.
pub open spec fn lex_less(a: Seq<usize>, b: Seq<usize>) -> bool {
    exists|k: int|
        0 <= k < a.len() && k < b.len() && (forall|m: int| 0 <= m < k ==> a[m] == b[m]) && (
        #[trigger] a[k]) < b[k]
}

/// The common capability of the strategies: build a superpermutation over
/// the tokens `1..=n_tokens`, and check a candidate for being one.
///
/// A zero-token alphabet is a degenerate edge: its one permutation is the
/// empty sequence, which every sequence contains, so every check succeeds
/// and construction returns the empty sequence.
pub trait SuperPermHandling {
    /// Returns a valid (not necessarily minimal) superpermutation over the
    /// tokens `1..=n_tokens`. The output starts with the base sequence
    /// `1..=n_tokens` and then grows by one previously uncovered
    /// permutation per step, appending at least one and at most `n_tokens`
    /// tokens each time — hence the length bounds.
    fn create_superperm(&self, n_tokens: usize) -> (r: Vec<usize>)
        requires
            fact(n_tokens as nat) <= usize::MAX,
        ensures
            is_superperm(r@, n_tokens as nat),
            seq_starts_with(r@, idseq(n_tokens as nat)),
            n_tokens + fact(n_tokens as nat) - 1 <= r@.len(),
            r@.len() <= n_tokens * fact(n_tokens as nat),
    ;

    /// Reports whether `sequence` is a superpermutation over the tokens
    /// `1..=n_tokens`. A sequence shorter than `n_tokens` fails the check.
    fn check_superperm(&self, sequence: &Vec<usize>, n_tokens: usize) -> (r: bool)
        requires
            fact(n_tokens as nat) <= usize::MAX,
        ensures
            r == is_superperm(sequence@, n_tokens as nat),
    ;
}

/// Every strategy agrees with itself: checking what it creates succeeds.
/// This follows for every implementer from the two contracts above.
pub fn check_self_agreement<H: SuperPermHandling>(handling: &H, n_tokens: usize) -> (r: bool)
    requires
        fact(n_tokens as nat) <= usize::MAX,
    ensures
        r,
{
    let built = handling.create_superperm(n_tokens);
    handling.check_superperm(&built, n_tokens)
}

/// The identity sequence is a permutation of the alphabet, with distinct,
/// nonzero tokens.
pub proof fn lemma_idseq(n: nat)
    requires
        n <= usize::MAX,
    ensures
        distinct_seq(idseq(n)),
        nonzero_seq(idseq(n)),
        is_perm_of(idseq(n), n),
        idseq(n).len() == n,
{
}

/// The set of alphabet tokens `1..=n` has exactly `n` members.
proof fn lemma_alphabet_set_len(n: nat)
    requires
        n <= usize::MAX,
    ensures
        Set::new(|x: usize| 1 <= x <= n).finite(),
        Set::new(|x: usize| 1 <= x <= n).len() == n,
    decreases n,
{
    broadcast use vstd::set::group_set_axioms;

    if n == 0 {
        assert(Set::new(|x: usize| 1 <= x <= n) =~= Set::<usize>::empty());
    } else {
        lemma_alphabet_set_len((n - 1) as nat);
        assert(Set::new(|x: usize| 1 <= x <= n) =~= Set::new(
            |x: usize| 1 <= x <= n - 1,
        ).insert(n as usize));
        assert(!Set::new(|x: usize| 1 <= x <= n - 1).contains(n as usize));
    }
}

/// A permutation of the alphabet carries the same tokens as the identity
/// sequence: by a counting argument, no alphabet token can be missing.
pub proof fn lemma_perm_is_rearrangement(q: Seq<usize>, n: nat)
    requires
        n <= usize::MAX,
        is_perm_of(q, n),
    ensures
        q.to_multiset() == idseq(n).to_multiset(),
{
    broadcast use vstd::set::group_set_axioms;
    broadcast use vstd::seq_lib::group_to_multiset_ensures;

    let alphabet = Set::new(|x: usize| 1 <= x <= n);
    lemma_alphabet_set_len(n);
    assert(q.no_duplicates());
    q.unique_seq_to_set();
    assert(q.to_set().subset_of(alphabet)) by {
        assert forall|x: usize| q.to_set().contains(x) implies alphabet.contains(x) by {
            let i = choose|i: int| 0 <= i < q.len() && q[i] == x;
        }
    }
    assert forall|t: usize| 1 <= t <= n implies q.contains(t) by {
        if !q.to_set().contains(t) {
            q.to_set().lemma_subset_not_in_lt(alphabet, t);
            assert(q.to_set().len() < n);
        }
    }
    lemma_idseq(n);
    assert forall|x: usize| q.contains(x) <==> idseq(n).contains(x) by {
        if q.contains(x) {
            let i = choose|i: int| 0 <= i < q.len() && q[i] == x;
            assert(idseq(n)[x - 1] == x);
        }
        if idseq(n).contains(x) {
            let i = choose|i: int| 0 <= i < n && idseq(n)[i] == x;
            assert(1 <= x <= n);
        }
    }
    crate::prefix::lemma_distinct_same_membership_multiset(q, idseq(n));
}

/// A rearrangement of the identity sequence is a permutation of the
/// alphabet.
pub proof fn lemma_rearrangement_is_perm(q: Seq<usize>, n: nat)
    requires
        n <= usize::MAX,
        q.to_multiset() == idseq(n).to_multiset(),
    ensures
        is_perm_of(q, n),
{
    lemma_idseq(n);
    crate::prefix::lemma_rearrangement_facts(idseq(n), q);
    assert forall|i: int| 0 <= i < q.len() implies 1 <= #[trigger] q[i] <= n by {
        assert(idseq(n).contains(q[i]));
        let j = choose|j: int| 0 <= j < n && idseq(n)[j] == q[i];
    }
}

/// A window stays a window when the sequence grows at the end.
pub proof fn lemma_window_extend(s: Seq<usize>, ext: Seq<usize>, w: Seq<usize>)
    requires
        contains_window(s, w),
    ensures
        contains_window(s + ext, w),
{
    let o = choose|o: int| #[trigger] window_at(s, w, o);
    assert(window_at(s + ext, w, o)) by {
        assert forall|m: int| 0 <= m < w.len() implies (s + ext)[o + m] == #[trigger] w[m] by {
            assert(s[o + m] == w[m]);
        }
    }
}

/// A sequence shorter than the window width contains no permutation, so it
/// is no superpermutation of a nonempty alphabet.
pub proof fn lemma_short_no_superperm(s: Seq<usize>, n: nat)
    requires
        1 <= n <= usize::MAX,
        s.len() < n,
    ensures
        !is_superperm(s, n),
{
    lemma_idseq(n);
    if is_superperm(s, n) {
        assert(contains_window(s, idseq(n)));
        let o = choose|o: int| #[trigger] window_at(s, idseq(n), o);
    }
}

/// Builds the identity sequence `[1, 2, ..., n]`.
pub fn make_id_vec(n: usize) -> (r: Vec<usize>)
    ensures
        r@ == idseq(n as nat),
{
    let mut r: Vec<usize> = Vec::new();
    let mut i: usize = 0;
    while i < n
        invariant
            0 <= i <= n,
            r@.len() == i,
            forall|j: int| 0 <= j < i ==> #[trigger] r@[j] == j + 1,
        decreases n - i,
    {
        r.push(i + 1);
        i = i + 1;
    }
    proof {
        assert(r@ =~= idseq(n as nat));
    }
    r
}

/// Compares a window of `s` at offset `o` against `w`, token by token.
pub fn window_matches(s: &Vec<usize>, o: usize, w: &Vec<usize>) -> (r: bool)
    requires
        o + w@.len() <= s@.len(),
    ensures
        r == window_at(s@, w@, o as int),
{
    let sl = s.len();
    let wl = w.len();
    let mut m: usize = 0;
    let mut ok = true;
    while m < wl
        invariant
            0 <= m <= wl,
            wl == w@.len(),
            sl == s@.len(),
            o + wl <= sl,
            ok == (forall|j: int| 0 <= j < m ==> s@[o + j] == #[trigger] w@[j]),
        decreases wl - m,
    {
        if s[o + m] != w[m] {
            ok = false;
        }
        m = m + 1;
    }
    ok
}

/// Compares the last `i` tokens of `s` against the first `i` tokens of `w`.
pub fn tail_matches(s: &Vec<usize>, w: &Vec<usize>, i: usize) -> (r: bool)
    requires
        i <= w@.len(),
        i <= s@.len(),
    ensures
        r == (forall|m: int| 0 <= m < i ==> #[trigger] w@[m] == s@[s@.len() - i + m]),
{
    let sl = s.len();
    let base = sl - i;
    let mut m: usize = 0;
    let mut ok = true;
    while m < i
        invariant
            0 <= m <= i,
            i <= w@.len(),
            i <= sl,
            sl == s@.len(),
            base == sl - i,
            ok == (forall|j: int| 0 <= j < m ==> #[trigger] w@[j] == s@[s@.len() - i + j]),
        decreases i - m,
    {
        if w[m] != s[base + m] {
            ok = false;
        }
        m = m + 1;
    }
    ok
}

/// Entries marked `true` in a coverage checklist over positions `[a, b)`.
pub open spec fn true_pred() -> spec_fn(bool) -> bool {
    |b: bool| b
}

/// How many checklist entries are covered.
pub open spec fn count_true(s: Seq<bool>, a: int, b: int) -> nat {
    count_range(s, true_pred(), a, b)
}

/// A fully covered checklist has every entry set.
pub proof fn lemma_count_true_full(s: Seq<bool>)
    requires
        count_true(s, 0, s.len() as int) == s.len(),
    ensures
        forall|i: int| 0 <= i < s.len() ==> s[i],
{
    assert forall|i: int| 0 <= i < s.len() implies s[i] by {
        if !s[i] {
            let n = s.len() as int;
            lemma_count_split(s, true_pred(), 0, i, n);
            lemma_count_unfold_left(s, true_pred(), i, n);
            crate::count::lemma_count_le(s, true_pred(), 0, i);
            crate::count::lemma_count_le(s, true_pred(), i + 1, n);
        }
    }
}

/// A checklist that is not fully covered has an uncovered entry.
pub proof fn lemma_count_true_partial(s: Seq<bool>)
    requires
        count_true(s, 0, s.len() as int) < s.len(),
    ensures
        exists|i: int| 0 <= i < s.len() && !s[i],
{
    if forall|i: int| 0 <= i < s.len() ==> s[i] {
        lemma_count_all(s, true_pred(), 0, s.len() as int);
    }
}

/// Copies the tokens of `s` in positions `[a, b)` into a fresh vector.
pub fn copy_range(s: &Vec<usize>, a: usize, b: usize) -> (r: Vec<usize>)
    requires
        a <= b,
        b <= s@.len(),
    ensures
        r@.len() == b - a,
        forall|m: int| 0 <= m < b - a ==> #[trigger] r@[m] == s@[a + m],
{
    let mut r: Vec<usize> = Vec::new();
    let mut m: usize = a;
    while m < b
        invariant
            a <= m <= b,
            b <= s@.len(),
            r@.len() == m - a,
            forall|j: int| 0 <= j < m - a ==> #[trigger] r@[j] == s@[a + j],
        decreases b - m,
    {
        r.push(s[m]);
        m = m + 1;
    }
    r
}

/// Padding never breaks a superpermutation: prepending or appending any
/// extra tokens keeps every permutation's window in place.
pub proof fn lemma_padding_keeps_superperm(pre: Seq<usize>, s: Seq<usize>, suf: Seq<usize>, n: nat)
    requires
        is_superperm(s, n),
    ensures
        is_superperm(pre + s + suf, n),
{
    assert forall|q: Seq<usize>|
        #[trigger] is_perm_of(q, n) implies contains_window(pre + s + suf, q) by {
        assert(contains_window(s, q));
        let o = choose|o: int| #[trigger] window_at(s, q, o);
        assert(window_at(pre + s + suf, q, pre.len() + o)) by {
            assert forall|m: int|
                0 <= m < q.len() implies (pre + s + suf)[pre.len() + o + m] == #[trigger] q[m] by {
                assert((pre + s + suf)[pre.len() + o + m] == s[o + m]);
                assert(s[o + m] == q[m]);
            }
        }
    }
}

} // verus!
