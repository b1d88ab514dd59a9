//! The mathematical model of the permutation numbering.
//!
//! A permutation of a base sequence `c` of `n` distinct, nonzero tokens is
//! built by *placement*: token `c[i]` is put into the `d[i]`-th still-free
//! slot of a partially filled output, where `d` is the mixed-radix
//! representation of the permutation's index value over the bases
//! `[n, n-1, ..., 1]`. The inverse direction is a *scan*: for each token in
//! turn, find it among the still-unclaimed positions of a candidate sequence
//! and count the unclaimed positions skipped on the way.
//!
//! This module defines placement and scan as spec functions and proves that
//! they are mutually inverse bijections between index values and
//! permutations of the base sequence.

use vstd::multiset::Multiset;
use vstd::prelude::*;

use crate::count::{
    count_range, lemma_count_agree, lemma_count_all, lemma_count_split, lemma_count_unfold_left,
    lemma_count_update,
};
use crate::radix::{prod_from, spec_encode, valid_repr};

verus! {

/// No two entries are equal.
pub open spec fn distinct_seq(s: Seq<usize>) -> bool {
    forall|i: int, j: int| 0 <= i < j < s.len() ==> s[i] != s[j]
}

/// Every entry is nonzero (zero marks a free slot during placement).
pub open spec fn nonzero_seq(s: Seq<usize>) -> bool {
    forall|i: int| 0 <= i < s.len() ==> s[i] != 0
}

/// `p` is the start of `q`, entry by entry.
pub open spec fn seq_starts_with(q: Seq<usize>, p: Seq<usize>) -> bool {
    &&& p.len() <= q.len()
    &&& forall|m: int| 0 <= m < p.len() ==> q[m] == p[m]
}

/// A free (still unfilled) slot of a partial permutation.
pub open spec fn free_pred() -> spec_fn(usize) -> bool {
    |x: usize| x == 0
}

/// A still-unclaimed position of a scan.
pub open spec fn unfilled_pred() -> spec_fn(bool) -> bool {
    |b: bool| !b
}

/// Number of free slots of `s` in positions `[a, b)`.
pub open spec fn count_free(s: Seq<usize>, a: int, b: int) -> nat {
    count_range(s, free_pred(), a, b)
}

/// The first position `m >= j` with `s[m] == t`, or `s.len()` when there is
/// none.
pub open spec fn find_in(s: Seq<usize>, j: int, t: usize) -> int
    decreases s.len() - j,
{
    if j < 0 || j >= s.len() {
        s.len() as int
    } else if s[j] == t {
        j
    } else {
        find_in(s, j + 1, t)
    }
}

/// The index a token holds in the base sequence.
pub open spec fn tok_idx(c: Seq<usize>, t: usize) -> int {
    find_in(c, 0, t)
}

/// Tokens whose base-sequence index lies beyond `i`.
pub open spec fn gt_pred(c: Seq<usize>, i: int) -> spec_fn(usize) -> bool {
    |t: usize| tok_idx(c, t) > i
}

/// The position of the `k`-th free slot at or after position `j`, or
/// `s.len()` when fewer than `k + 1` free slots remain.
pub open spec fn nth_free_from(s: Seq<usize>, j: int, k: int) -> int
    decreases s.len() - j,
{
    if j < 0 || j >= s.len() {
        s.len() as int
    } else if s[j] == 0 {
        if k == 0 {
            j
        } else {
            nth_free_from(s, j + 1, k - 1)
        }
    } else {
        nth_free_from(s, j + 1, k)
    }
}

/// A sequence of `n` free slots.
pub open spec fn zero_seq(n: nat) -> Seq<usize> {
    Seq::new(n, |i: int| 0usize)
}

/// The mixed-radix bases of the permutation numbering for `n` tokens:
/// `[n, n-1, ..., 1]`, so that the product of the bases is `n!`.
pub open spec fn perm_bases(n: nat) -> Seq<usize> {
    Seq::new(n, |i: int| (n - i) as usize)
}

/// The factorial.
pub open spec fn fact(n: nat) -> nat
    decreases n,
{
    if n == 0 {
        1
    } else {
        n * fact((n - 1) as nat)
    }
}

/// Places tokens `c[i..]` with digits `d[i..]` into the free slots of `s`:
/// each token goes to the `d[i]`-th free slot of the state so far.
pub open spec fn place_from(s: Seq<usize>, c: Seq<usize>, d: Seq<usize>, i: int) -> Seq<usize>
    decreases c.len() - i,
{
    if i < 0 || i >= c.len() {
        s
    } else {
        place_from(s.update(nth_free_from(s, 0, d[i] as int), c[i]), c, d, i + 1)
    }
}

/// The permutation a digit sequence stands for.
pub open spec fn perm_from_digits(c: Seq<usize>, d: Seq<usize>) -> Seq<usize> {
    place_from(zero_seq(c.len()), c, d, 0)
}

/// The permutation an index value stands for: decode the value into digits,
/// then place the tokens.
pub open spec fn spec_value_to_perm(c: Seq<usize>, v: nat) -> Seq<usize> {
    perm_from_digits(c, spec_encode(perm_bases(c.len()), v))
}

/// The first position `m >= j` that is unclaimed and holds token `t`, or
/// `q.len()` when there is none.
pub open spec fn find_free_match(q: Seq<usize>, f: Seq<bool>, t: usize, j: int) -> int
    decreases q.len() - j,
{
    if j < 0 || j >= q.len() {
        q.len() as int
    } else if !f[j] && q[j] == t {
        j
    } else {
        find_free_match(q, f, t, j + 1)
    }
}

/// Scans `q` for the tokens `c[i..]` in turn, claiming each found position:
/// the digit recorded for a token is the number of unclaimed positions
/// before the position where it is found. `None` when some token cannot be
/// found among the unclaimed positions.
pub open spec fn scan_from(c: Seq<usize>, q: Seq<usize>, f: Seq<bool>, i: int) -> Option<
    Seq<usize>,
>
    decreases c.len() - i,
{
    if i < 0 || i >= c.len() {
        Some(Seq::empty())
    } else {
        let pos = find_free_match(q, f, c[i], 0);
        if pos >= q.len() {
            None
        } else {
            match scan_from(c, q, f.update(pos, true), i + 1) {
                Option::None => None,
                Option::Some(rest) => Some(
                    seq![count_range(f, unfilled_pred(), 0, pos) as usize] + rest,
                ),
            }
        }
    }
}

/// Scanning a candidate permutation from a fresh state.
pub open spec fn spec_scan(c: Seq<usize>, q: Seq<usize>) -> Option<Seq<usize>> {
    if q.len() == c.len() {
        scan_from(c, q, Seq::new(q.len(), |m: int| false), 0)
    } else {
        None
    }
}

/// What `find_in` returns: the first occurrence, or the length when the
/// token does not occur from `j` on.
pub proof fn lemma_find_in_char(s: Seq<usize>, j: int, t: usize)
    requires
        0 <= j <= s.len(),
    ensures
        j <= find_in(s, j, t) <= s.len(),
        find_in(s, j, t) < s.len() ==> s[find_in(s, j, t)] == t,
        forall|m: int| j <= m < find_in(s, j, t) ==> s[m] != t,
    decreases s.len() - j,
{
    if j < s.len() && s[j] != t {
        lemma_find_in_char(s, j + 1, t);
    }
}

/// `find_in` is pinned by its characterization: a matching position with no
/// earlier match is the one found.
pub proof fn lemma_find_in_unique(s: Seq<usize>, j: int, t: usize, r: int)
    requires
        0 <= j <= r < s.len(),
        s[r] == t,
        forall|m: int| j <= m < r ==> s[m] != t,
    ensures
        find_in(s, j, t) == r,
    decreases r - j,
{
    if j < r {
        lemma_find_in_unique(s, j + 1, t, r);
    }
}

/// In a distinct sequence, every token indexes its own position.
pub proof fn lemma_tok_idx_self(c: Seq<usize>, j: int)
    requires
        distinct_seq(c),
        0 <= j < c.len(),
    ensures
        tok_idx(c, c[j]) == j,
{
    lemma_find_in_unique(c, 0, c[j], j);
}

/// What `nth_free_from` returns when enough free slots remain: a free
/// position with exactly `k` free slots before it (counting from `j`).
pub proof fn lemma_nth_free_char(s: Seq<usize>, j: int, k: int)
    requires
        0 <= j <= s.len(),
        0 <= k,
        count_free(s, j, s.len() as int) > k,
    ensures
        j <= nth_free_from(s, j, k) < s.len(),
        s[nth_free_from(s, j, k)] == 0,
        count_free(s, j, nth_free_from(s, j, k)) == k,
    decreases s.len() - j,
{
    let n = s.len() as int;
    assert(j < n) by {
        if j == n {
            assert(count_free(s, j, n) == 0);
        }
    }
    lemma_count_unfold_left(s, free_pred(), j, n);
    if s[j] == 0 {
        if k == 0 {
            assert(count_free(s, j, j) == 0);
        } else {
            lemma_nth_free_char(s, j + 1, k - 1);
            let r = nth_free_from(s, j + 1, k - 1);
            lemma_count_unfold_left(s, free_pred(), j, r);
        }
    } else {
        lemma_nth_free_char(s, j + 1, k);
        let r = nth_free_from(s, j + 1, k);
        lemma_count_unfold_left(s, free_pred(), j, r);
    }
}

/// `nth_free_from` is pinned by its characterization: a free position with
/// exactly `k` free slots before it is the one found.
pub proof fn lemma_nth_free_unique(s: Seq<usize>, j: int, k: int, r: int)
    requires
        0 <= j <= r < s.len(),
        s[r] == 0,
        count_free(s, j, r) == k,
    ensures
        nth_free_from(s, j, k) == r,
    decreases r - j,
{
    if j == r {
        assert(count_free(s, r, r) == 0);
        assert(k == 0);
    } else {
        lemma_count_unfold_left(s, free_pred(), j, r);
        if s[j] == 0 {
            assert(k >= 1);
            lemma_nth_free_unique(s, j + 1, k - 1, r);
        } else {
            lemma_nth_free_unique(s, j + 1, k, r);
        }
    }
}

/// The running state of a placement: still `c.len() - i` free slots, and
/// every remaining digit below the number of slots it will choose from.
pub open spec fn place_ctx(s: Seq<usize>, c: Seq<usize>, d: Seq<usize>, i: int) -> bool {
    &&& s.len() == c.len()
    &&& d.len() == c.len()
    &&& 0 <= i <= c.len()
    &&& nonzero_seq(c)
    &&& count_free(s, 0, s.len() as int) == c.len() - i
    &&& forall|j: int| i <= j < c.len() ==> d[j] < c.len() - j
}

/// One placement step: the chosen slot is free and in bounds, and the next
/// state is again a placement state.
pub proof fn lemma_place_step(s: Seq<usize>, c: Seq<usize>, d: Seq<usize>, i: int)
    requires
        place_ctx(s, c, d, i),
        i < c.len(),
    ensures
        ({
            let pos = nth_free_from(s, 0, d[i] as int);
            &&& 0 <= pos < s.len()
            &&& s[pos] == 0
            &&& count_free(s, 0, pos) == d[i]
            &&& place_ctx(s.update(pos, c[i]), c, d, i + 1)
            &&& place_from(s, c, d, i) == place_from(s.update(pos, c[i]), c, d, i + 1)
        }),
{
    let n = s.len() as int;
    lemma_nth_free_char(s, 0, d[i] as int);
    let pos = nth_free_from(s, 0, d[i] as int);
    let s1 = s.update(pos, c[i]);
    lemma_count_update(s, free_pred(), pos, c[i], 0, n);
    assert(c[i] != 0);
}

/// Placement never touches an occupied slot: entries that are already set
/// stay as they are, and the length never changes.
pub proof fn lemma_place_preserves(s: Seq<usize>, c: Seq<usize>, d: Seq<usize>, i: int)
    requires
        place_ctx(s, c, d, i),
    ensures
        place_from(s, c, d, i).len() == s.len(),
        forall|m: int|
            0 <= m < s.len() && s[m] != 0 ==> place_from(s, c, d, i)[m] == s[m],
    decreases c.len() - i,
{
    if i < c.len() {
        lemma_place_step(s, c, d, i);
        let pos = nth_free_from(s, 0, d[i] as int);
        let s1 = s.update(pos, c[i]);
        lemma_place_preserves(s1, c, d, i + 1);
        assert forall|m: int| 0 <= m < s.len() && s[m] != 0 implies place_from(s, c, d, i)[m]
            == s[m] by {
            assert(m != pos);
            assert(s1[m] == s[m] && s1[m] != 0);
            assert(place_from(s1, c, d, i + 1)[m] == s1[m]);
        }
    }
}

/// Every free slot ends up holding one of the tokens still to be placed.
pub proof fn lemma_place_fills_free(s: Seq<usize>, c: Seq<usize>, d: Seq<usize>, i: int)
    requires
        place_ctx(s, c, d, i),
    ensures
        forall|m: int|
            0 <= m < s.len() && s[m] == 0 ==> exists|j: int|
                i <= j < c.len() && place_from(s, c, d, i)[m] == c[j],
    decreases c.len() - i,
{
    if i >= c.len() {
        assert forall|m: int| 0 <= m < s.len() && s[m] == 0 implies exists|j: int|
            i <= j < c.len() && place_from(s, c, d, i)[m] == c[j] by {
            lemma_count_split(s, free_pred(), 0, m, s.len() as int);
            lemma_count_unfold_left(s, free_pred(), m, s.len() as int);
        }
    } else {
        lemma_place_step(s, c, d, i);
        let pos = nth_free_from(s, 0, d[i] as int);
        let s1 = s.update(pos, c[i]);
        lemma_place_preserves(s1, c, d, i + 1);
        lemma_place_fills_free(s1, c, d, i + 1);
        assert forall|m: int| 0 <= m < s.len() && s[m] == 0 implies exists|j: int|
            i <= j < c.len() && place_from(s, c, d, i)[m] == c[j] by {
            if m == pos {
                assert(s1[pos] == c[i] && s1[pos] != 0);
                assert(place_from(s1, c, d, i + 1)[pos] == s1[pos]);
                assert(place_from(s, c, d, i)[m] == c[i]);
            } else {
                assert(s1[m] == 0);
                let j = choose|j: int|
                    i + 1 <= j < c.len() && place_from(s1, c, d, i + 1)[m] == c[j];
                assert(i <= j < c.len() && place_from(s, c, d, i)[m] == c[j]);
            }
        }
    }
}

/// The multiset of a sequence after overwriting one position: the old entry
/// leaves, the new one enters.
proof fn lemma_to_multiset_update(s: Seq<usize>, pos: int, v: usize)
    requires
        0 <= pos < s.len(),
    ensures
        s.update(pos, v).to_multiset() == s.to_multiset().remove(s[pos]).insert(v),
{
    broadcast use vstd::seq_lib::group_to_multiset_ensures;
    broadcast use vstd::multiset::group_multiset_axioms;

    let su = s.update(pos, v);
    assert(su.remove(pos) =~= s.remove(pos));
    assert(su.remove(pos).to_multiset() =~= su.to_multiset().remove(su[pos]));
    assert(s.remove(pos).to_multiset() =~= s.to_multiset().remove(s[pos]));
    assert(su.to_multiset().remove(v) =~= s.to_multiset().remove(s[pos]));
    assert(su.contains(v)) by {
        assert(su[pos] == v);
    }
    assert(su.to_multiset().count(v) > 0);
    assert(su.to_multiset() =~= s.to_multiset().remove(s[pos]).insert(v));
}

/// Skipping one more entry takes that entry out of the tail's multiset view.
pub proof fn lemma_skip_multiset_step(c: Seq<usize>, i: int)
    requires
        0 <= i < c.len(),
    ensures
        c.skip(i).to_multiset() == c.skip(i + 1).to_multiset().insert(c[i]),
{
    broadcast use vstd::seq_lib::group_to_multiset_ensures;
    broadcast use vstd::multiset::group_multiset_axioms;

    assert(c.skip(i) =~= seq![c[i]] + c.skip(i + 1));
    vstd::seq_lib::lemma_multiset_commutative(seq![c[i]], c.skip(i + 1));
    assert(seq![c[i]] =~= Seq::empty().push(c[i]));
    assert(seq![c[i]].to_multiset() =~= Multiset::empty().insert(c[i]));
    assert(Multiset::empty().insert(c[i]).add(c.skip(i + 1).to_multiset()) =~= c.skip(
        i + 1,
    ).to_multiset().insert(c[i]));
}

/// One more free slot extends the all-zero sequence's multiset by a zero.
proof fn lemma_zero_seq_multiset_step(k: nat)
    requires
        k >= 1,
    ensures
        zero_seq(k).to_multiset() == zero_seq((k - 1) as nat).to_multiset().insert(0),
{
    broadcast use vstd::seq_lib::group_to_multiset_ensures;

    assert(zero_seq(k) =~= zero_seq((k - 1) as nat).push(0));
}

/// What placement does to the tokens as a whole: the free slots (so many
/// zeros) are replaced by the tokens still to be placed.
pub proof fn lemma_place_multiset(s: Seq<usize>, c: Seq<usize>, d: Seq<usize>, i: int)
    requires
        place_ctx(s, c, d, i),
    ensures
        place_from(s, c, d, i).to_multiset().add(
            zero_seq((c.len() - i) as nat).to_multiset(),
        ) == s.to_multiset().add(c.skip(i).to_multiset()),
    decreases c.len() - i,
{
    broadcast use vstd::multiset::group_multiset_axioms;

    if i >= c.len() {
        assert(zero_seq(0) =~= Seq::<usize>::empty());
        assert(c.skip(i) =~= Seq::<usize>::empty());
        Seq::<usize>::empty().to_multiset_ensures();
        assert(Seq::<usize>::empty().to_multiset() =~= Multiset::<usize>::empty());
        assert(place_from(s, c, d, i).to_multiset().add(Multiset::empty()) =~= s.to_multiset());
    } else {
        lemma_place_step(s, c, d, i);
        let pos = nth_free_from(s, 0, d[i] as int);
        let s1 = s.update(pos, c[i]);
        lemma_place_multiset(s1, c, d, i + 1);
        lemma_to_multiset_update(s, pos, c[i]);
        lemma_skip_multiset_step(c, i);
        lemma_zero_seq_multiset_step((c.len() - i) as nat);
        let r = place_from(s, c, d, i).to_multiset();
        let z1 = zero_seq((c.len() - i - 1) as nat).to_multiset();
        let k1 = c.skip(i + 1).to_multiset();
        let sm = s.to_multiset();
        // the inductive step, read count by count
        assert(sm.count(0) >= 1) by {
            broadcast use vstd::seq_lib::group_to_multiset_ensures;

            assert(s.contains(0)) by {
                assert(s[pos] == 0);
            }
        }
        assert(r.add(z1.insert(0)) =~= sm.remove(0).insert(c[i]).add(k1).insert(0));
        assert(sm.remove(0).insert(c[i]).add(k1).insert(0) =~= sm.add(k1.insert(c[i])));
    }
}

/// What `find_free_match` returns: the first unclaimed occurrence, or the
/// length when there is none.
pub proof fn lemma_find_free_match_char(q: Seq<usize>, f: Seq<bool>, t: usize, j: int)
    requires
        0 <= j <= q.len(),
        f.len() == q.len(),
    ensures
        j <= find_free_match(q, f, t, j) <= q.len(),
        find_free_match(q, f, t, j) < q.len() ==> !f[find_free_match(q, f, t, j)]
            && q[find_free_match(q, f, t, j)] == t,
        forall|m: int| j <= m < find_free_match(q, f, t, j) ==> f[m] || q[m] != t,
    decreases q.len() - j,
{
    if j < q.len() && !(!f[j] && q[j] == t) {
        lemma_find_free_match_char(q, f, t, j + 1);
    }
}

/// `find_free_match` is pinned by its characterization.
pub proof fn lemma_find_free_match_unique(q: Seq<usize>, f: Seq<bool>, t: usize, j: int, r: int)
    requires
        0 <= j <= r < q.len(),
        f.len() == q.len(),
        !f[r] && q[r] == t,
        forall|m: int| j <= m < r ==> f[m] || q[m] != t,
    ensures
        find_free_match(q, f, t, j) == r,
    decreases r - j,
{
    if j < r {
        lemma_find_free_match_unique(q, f, t, j + 1, r);
    }
}

/// Scanning the result of a placement recovers exactly the digits that were
/// placed.
pub proof fn lemma_scan_of_place(s: Seq<usize>, c: Seq<usize>, d: Seq<usize>, f: Seq<bool>, i: int)
    requires
        place_ctx(s, c, d, i),
        distinct_seq(c),
        f.len() == s.len(),
        forall|m: int| 0 <= m < s.len() ==> f[m] == (s[m] != 0),
    ensures
        scan_from(c, place_from(s, c, d, i), f, i) == Some(d.skip(i)),
    decreases c.len() - i,
{
    let n = s.len() as int;
    let q = place_from(s, c, d, i);
    if i >= c.len() {
        assert(d.skip(i) =~= Seq::<usize>::empty());
    } else {
        lemma_place_step(s, c, d, i);
        let pos = nth_free_from(s, 0, d[i] as int);
        let s1 = s.update(pos, c[i]);
        lemma_place_preserves(s1, c, d, i + 1);
        lemma_place_fills_free(s1, c, d, i + 1);
        assert(q[pos] == c[i]) by {
            assert(s1[pos] == c[i] && c[i] != 0);
        }
        assert forall|m: int| 0 <= m < pos implies f[m] || q[m] != c[i] by {
            if !f[m] {
                assert(s[m] == 0 && m != pos);
                assert(s1[m] == 0);
                let j = choose|j: int| i + 1 <= j < c.len() && place_from(s1, c, d, i + 1)[m] == c[j];
                assert(q[m] == c[j] && c[j] != c[i]);
            }
        }
        lemma_find_free_match_unique(q, f, c[i], 0, pos);
        lemma_count_agree(f, s, unfilled_pred(), free_pred(), 0, pos);
        assert(count_range(f, unfilled_pred(), 0, pos) == d[i]);
        let f1 = f.update(pos, true);
        lemma_scan_of_place(s1, c, d, f1, i + 1);
        assert(d.skip(i) =~= seq![d[i]] + d.skip(i + 1));
    }
}

/// A successful scan names digits that place back into the scanned sequence:
/// the scan and the placement are mutually inverse.
pub proof fn lemma_place_of_scan(
    s: Seq<usize>,
    c: Seq<usize>,
    q: Seq<usize>,
    f: Seq<bool>,
    i: int,
)
    requires
        s.len() == c.len(),
        q.len() == c.len(),
        f.len() == c.len(),
        c.len() <= usize::MAX,
        0 <= i <= c.len(),
        nonzero_seq(c),
        count_free(s, 0, s.len() as int) == c.len() - i,
        forall|m: int| 0 <= m < s.len() ==> f[m] == (s[m] != 0),
        forall|m: int| 0 <= m < s.len() && f[m] ==> q[m] == s[m],
        scan_from(c, q, f, i) is Some,
    ensures
        ({
            let ds = scan_from(c, q, f, i)->Some_0;
            &&& ds.len() == c.len() - i
            &&& forall|j: int| 0 <= j < ds.len() ==> ds[j] < c.len() - i - j
            &&& forall|dd: Seq<usize>|
                dd.len() == c.len() && (forall|j: int|
                    i <= j < c.len() ==> dd[j] == ds[j - i]) ==> place_from(s, c, dd, i) == q
        }),
    decreases c.len() - i,
{
    let n = c.len() as int;
    let ds = scan_from(c, q, f, i)->Some_0;
    if i >= c.len() {
        assert(ds.len() == 0);
        assert forall|m: int| 0 <= m < n implies f[m] by {
            if !f[m] {
                assert(s[m] == 0);
                lemma_count_split(s, free_pred(), 0, m, n);
                lemma_count_unfold_left(s, free_pred(), m, n);
            }
        }
        assert forall|dd: Seq<usize>|
            dd.len() == c.len() && (forall|j: int| i <= j < c.len() ==> dd[j] == ds[j - i])
            implies place_from(s, c, dd, i) == q by {
            assert(place_from(s, c, dd, i) =~= q);
        }
    } else {
        lemma_find_free_match_char(q, f, c[i], 0);
        let pos = find_free_match(q, f, c[i], 0);
        assert(pos < n);
        assert(!f[pos] && q[pos] == c[i]);
        assert(s[pos] == 0);
        let sh = count_range(f, unfilled_pred(), 0, pos);
        lemma_count_agree(f, s, unfilled_pred(), free_pred(), 0, pos);
        assert(sh == count_free(s, 0, pos));
        assert(count_free(s, 0, n) == count_free(s, 0, pos) + count_free(s, pos, n)) by {
            lemma_count_split(s, free_pred(), 0, pos, n);
        }
        assert(count_free(s, pos, n) >= 1) by {
            lemma_count_unfold_left(s, free_pred(), pos, n);
        }
        assert(sh < n - i);
        lemma_nth_free_unique(s, 0, sh as int, pos);
        let s1 = s.update(pos, c[i]);
        let f1 = f.update(pos, true);
        lemma_count_update(s, free_pred(), pos, c[i], 0, n);
        let rest = scan_from(c, q, f1, i + 1)->Some_0;
        lemma_place_of_scan(s1, c, q, f1, i + 1);
        assert(ds =~= seq![sh as usize] + rest);
        assert(ds[0] == sh);
        assert forall|j: int| 0 <= j < ds.len() implies ds[j] < c.len() - i - j by {
            if j > 0 {
                assert(ds[j] == rest[j - 1]);
            }
        }
        assert forall|dd: Seq<usize>|
            dd.len() == c.len() && (forall|j: int| i <= j < c.len() ==> dd[j] == ds[j - i])
            implies place_from(s, c, dd, i) == q by {
            assert(dd[i] == ds[0]);
            assert(nth_free_from(s, 0, dd[i] as int) == pos);
            assert forall|j: int| i + 1 <= j < c.len() implies dd[j] == rest[j - (i + 1)] by {
                assert(dd[j] == ds[j - i]);
                assert(ds[j - i] == rest[j - i - 1]);
            }
            assert(place_from(s1, c, dd, i + 1) == q);
        }
    }
}

/// Scanning any rearrangement of the base sequence succeeds: each token in
/// turn is still to be found at an unclaimed position.
pub proof fn lemma_scan_succeeds(c: Seq<usize>, q: Seq<usize>, f: Seq<bool>, i: int)
    requires
        distinct_seq(c),
        q.to_multiset() == c.to_multiset(),
        q.len() == c.len(),
        f.len() == c.len(),
        0 <= i <= c.len(),
        forall|m: int|
            0 <= m < q.len() && f[m] ==> exists|j: int| 0 <= j < i && q[m] == c[j],
    ensures
        scan_from(c, q, f, i) is Some,
    decreases c.len() - i,
{
    broadcast use vstd::seq_lib::group_to_multiset_ensures;

    if i < c.len() {
        assert(q.to_multiset().count(c[i]) > 0) by {
            assert(c.contains(c[i]));
        }
        assert(q.contains(c[i]));
        let m0 = choose|m0: int| 0 <= m0 < q.len() && q[m0] == c[i];
        assert(!f[m0]) by {
            if f[m0] {
                let j = choose|j: int| 0 <= j < i && q[m0] == c[j];
                assert(c[j] != c[i]);
            }
        }
        lemma_find_free_match_char(q, f, c[i], 0);
        let pos = find_free_match(q, f, c[i], 0);
        assert(pos < q.len()) by {
            if pos == q.len() {
                assert(f[m0] || q[m0] != c[i]);
            }
        }
        let f1 = f.update(pos, true);
        assert forall|m: int| 0 <= m < q.len() && f1[m] implies exists|j: int|
            0 <= j < i + 1 && q[m] == c[j] by {
            if m == pos {
                assert(q[pos] == c[i]);
            } else {
                assert(f[m]);
                let j = choose|j: int| 0 <= j < i && q[m] == c[j];
                assert(0 <= j < i + 1 && q[m] == c[j]);
            }
        }
        lemma_scan_succeeds(c, q, f1, i + 1);
    }
}

/// A fresh placement state: all slots free, every digit valid.
pub proof fn lemma_fresh_place_ctx(c: Seq<usize>, d: Seq<usize>)
    requires
        nonzero_seq(c),
        c.len() <= usize::MAX,
        valid_repr(perm_bases(c.len()), d),
    ensures
        place_ctx(zero_seq(c.len()), c, d, 0),
{
    let n = c.len() as int;
    lemma_count_all(zero_seq(c.len()), free_pred(), 0, n);
    assert forall|j: int| 0 <= j < c.len() implies d[j] < c.len() - j by {
        assert(d[j] < perm_bases(c.len())[j]);
    }
}

/// A valid digit sequence places into a rearrangement of the base sequence.
pub proof fn lemma_perm_from_digits_multiset(c: Seq<usize>, d: Seq<usize>)
    requires
        nonzero_seq(c),
        c.len() <= usize::MAX,
        valid_repr(perm_bases(c.len()), d),
    ensures
        perm_from_digits(c, d).to_multiset() == c.to_multiset(),
        perm_from_digits(c, d).len() == c.len(),
    {
    broadcast use vstd::multiset::group_multiset_axioms;

    let n = c.len();
    let z = zero_seq(n);
    lemma_fresh_place_ctx(c, d);
    lemma_place_preserves(z, c, d, 0);
    lemma_place_multiset(z, c, d, 0);
    assert(c.skip(0) =~= c);
    let r = perm_from_digits(c, d).to_multiset();
    assert(r.add(z.to_multiset()) == z.to_multiset().add(c.to_multiset()));
    assert(r =~= c.to_multiset()) by {
        assert forall|x: usize| r.count(x) == c.to_multiset().count(x) by {
            assert(r.add(z.to_multiset()).count(x) == z.to_multiset().add(
                c.to_multiset(),
            ).count(x));
        }
    }
}

/// Scanning the permutation of a valid digit sequence yields those digits.
pub proof fn lemma_scan_of_perm(c: Seq<usize>, d: Seq<usize>)
    requires
        distinct_seq(c),
        nonzero_seq(c),
        c.len() <= usize::MAX,
        valid_repr(perm_bases(c.len()), d),
    ensures
        spec_scan(c, perm_from_digits(c, d)) == Some(d),
{
    let n = c.len();
    let z = zero_seq(n);
    let f = Seq::new(n, |m: int| false);
    lemma_fresh_place_ctx(c, d);
    lemma_place_preserves(z, c, d, 0);
    lemma_scan_of_place(z, c, d, f, 0);
    assert(d.skip(0) =~= d);
    assert(perm_from_digits(c, d).len() == c.len());
    assert(Seq::new(perm_from_digits(c, d).len(), |m: int| false) =~= f);
}

/// A successful scan names valid digits that place back into the scanned
/// sequence.
pub proof fn lemma_scan_gives_place(c: Seq<usize>, q: Seq<usize>)
    requires
        distinct_seq(c),
        nonzero_seq(c),
        c.len() <= usize::MAX,
        spec_scan(c, q) is Some,
    ensures
        ({
            let ds = spec_scan(c, q)->Some_0;
            &&& valid_repr(perm_bases(c.len()), ds)
            &&& perm_from_digits(c, ds) == q
        }),
{
    let n = c.len();
    let z = zero_seq(n);
    let f = Seq::new(n, |m: int| false);
    assert(q.len() == c.len());
    lemma_count_all(z, free_pred(), 0, n as int);
    assert(Seq::new(q.len(), |m: int| false) =~= f);
    lemma_place_of_scan(z, c, q, f, 0);
    let ds = spec_scan(c, q)->Some_0;
    assert forall|j: int| 0 <= j < perm_bases(n).len() implies ds[j] < perm_bases(n)[j] by {
        assert(ds[j] < c.len() - 0 - j);
    }
    assert(ds.len() == n && (forall|j: int| 0 <= j < n ==> #[trigger] ds[j] == ds[j - 0]));
    assert(place_from(z, c, ds, 0) == q);
}

/// Scanning any rearrangement of the base sequence succeeds.
pub proof fn lemma_scan_total(c: Seq<usize>, q: Seq<usize>)
    requires
        distinct_seq(c),
        q.to_multiset() == c.to_multiset(),
    ensures
        spec_scan(c, q) is Some,
{
    broadcast use vstd::seq_lib::group_to_multiset_ensures;

    assert(q.to_multiset().len() == q.len());
    assert(c.to_multiset().len() == c.len());
    let f = Seq::new(q.len(), |m: int| false);
    lemma_scan_succeeds(c, q, f, 0);
}

/// Two digit sequences that place into the same permutation are equal.
pub proof fn lemma_perm_digits_injective(c: Seq<usize>, d1: Seq<usize>, d2: Seq<usize>)
    requires
        distinct_seq(c),
        nonzero_seq(c),
        c.len() <= usize::MAX,
        valid_repr(perm_bases(c.len()), d1),
        valid_repr(perm_bases(c.len()), d2),
        perm_from_digits(c, d1) == perm_from_digits(c, d2),
    ensures
        d1 == d2,
{
    lemma_scan_of_perm(c, d1);
    lemma_scan_of_perm(c, d2);
}

/// The factorial is positive.
pub proof fn lemma_fact_pos(n: nat)
    ensures
        fact(n) >= 1,
    decreases n,
{
    if n > 0 {
        lemma_fact_pos((n - 1) as nat);
        assert(n * fact((n - 1) as nat) >= 1) by (nonlinear_arith)
            requires
                n >= 1,
                fact((n - 1) as nat) >= 1,
        ;
    }
}

/// The permutation bases multiply out to the factorial, suffix by suffix.
pub proof fn lemma_perm_bases_fact(n: nat, i: int)
    requires
        0 <= i <= n <= usize::MAX,
    ensures
        prod_from(perm_bases(n), i) == fact((n - i) as nat),
    decreases n - i,
{
    if i < n {
        lemma_perm_bases_fact(n, i + 1);
        assert(perm_bases(n)[i] == n - i);
    }
}

} // verus!
