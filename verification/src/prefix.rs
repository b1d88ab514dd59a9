//! Which index values are consistent with a prefix.
//!
//! For a prefix `p` of tokens from the base sequence `c`, the permutations
//! that start with `p` are exactly those whose mixed-radix digits lie, digit
//! by digit, between the digits of two extreme permutations: the prefix
//! followed by the missing tokens in base-sequence order (the smallest), and
//! the prefix followed by the missing tokens in reverse order (the largest).
//! This module proves that characterization, which lets a range query
//! enumerate consistent values without ever enumerating permutations.

use vstd::multiset::Multiset;
use vstd::prelude::*;

use crate::count::{
    count_range, lemma_count_agree, lemma_count_all, lemma_count_le, lemma_count_none,
    lemma_count_offset, lemma_count_split, lemma_count_transfer, lemma_count_unfold_left,
};
use crate::perms::{
    distinct_seq, find_in, gt_pred, lemma_find_free_match_unique, lemma_find_in_char,
    lemma_find_in_unique, lemma_tok_idx_self, nonzero_seq, scan_from, seq_starts_with, spec_scan,
    tok_idx, unfilled_pred,
};

verus! {

/// The prefix `p` is made of distinct tokens of the base sequence `c`, and
/// is no longer than it.
pub open spec fn prefix_ctx(c: Seq<usize>, p: Seq<usize>) -> bool {
    &&& distinct_seq(c)
    &&& nonzero_seq(c)
    &&& c.len() <= usize::MAX
    &&& p.len() <= c.len()
    &&& distinct_seq(p)
    &&& forall|m: int| 0 <= m < p.len() ==> c.contains(#[trigger] p[m])
}

/// The tokens of `c[l..]` that do not occur in `p`, kept in base-sequence
/// order.
pub open spec fn missing_from(c: Seq<usize>, p: Seq<usize>, l: int) -> Seq<usize>
    decreases c.len() - l,
{
    if l < 0 || l >= c.len() {
        Seq::empty()
    } else if p.contains(c[l]) {
        missing_from(c, p, l + 1)
    } else {
        seq![c[l]] + missing_from(c, p, l + 1)
    }
}

/// The tokens of `c[l..]` that do occur in `p`, kept in base-sequence order.
pub open spec fn present_from(c: Seq<usize>, p: Seq<usize>, l: int) -> Seq<usize>
    decreases c.len() - l,
{
    if l < 0 || l >= c.len() {
        Seq::empty()
    } else if p.contains(c[l]) {
        seq![c[l]] + present_from(c, p, l + 1)
    } else {
        present_from(c, p, l + 1)
    }
}

/// All tokens of the base sequence that the prefix leaves unused.
pub open spec fn missing_of(c: Seq<usize>, p: Seq<usize>) -> Seq<usize> {
    missing_from(c, p, 0)
}

/// The smallest permutation with prefix `p`: the missing tokens follow in
/// base-sequence order.
pub open spec fn low_perm(c: Seq<usize>, p: Seq<usize>) -> Seq<usize> {
    p + missing_of(c, p)
}

/// The largest permutation with prefix `p`: the missing tokens follow in
/// reverse base-sequence order.
pub open spec fn high_perm(c: Seq<usize>, p: Seq<usize>) -> Seq<usize> {
    p + missing_of(c, p).reverse()
}

/// The inversion count of token `c[i]` in `q`: how many tokens with a larger
/// base-sequence index come before it. For permutations of `c` this is
/// exactly the mixed-radix digit of position `i`.
pub open spec fn inv_digit(c: Seq<usize>, q: Seq<usize>, i: int) -> nat {
    count_range(q, gt_pred(c, i), 0, find_in(q, 0, c[i]))
}

/// All inversion counts of `q`, as a digit sequence.
pub open spec fn inv_digits(c: Seq<usize>, q: Seq<usize>) -> Seq<usize> {
    Seq::new(c.len(), |i: int| inv_digit(c, q, i) as usize)
}

/// The missing tokens: none is in `p`, each is a token of `c[l..]` at its
/// own index, they come in strictly increasing index order, and every token
/// of `c[l..]` outside `p` is among them.
pub proof fn lemma_missing_main(c: Seq<usize>, p: Seq<usize>, l: int)
    requires
        distinct_seq(c),
        0 <= l <= c.len(),
    ensures
        ({
            let mm = missing_from(c, p, l);
            &&& forall|m: int|
                0 <= m < mm.len() ==> !p.contains(#[trigger] mm[m]) && l <= tok_idx(c, mm[m])
                    < c.len() && c[tok_idx(c, mm[m])] == mm[m]
            &&& forall|m1: int, m2: int|
                0 <= m1 < m2 < mm.len() ==> tok_idx(c, #[trigger] mm[m1]) < tok_idx(
                    c,
                    #[trigger] mm[m2],
                )
            &&& forall|j: int|
                l <= j < c.len() && !p.contains(#[trigger] c[j]) ==> mm.contains(c[j])
            &&& mm.len() <= c.len() - l
        }),
    decreases c.len() - l,
{
    if l < c.len() {
        lemma_missing_main(c, p, l + 1);
        let mm = missing_from(c, p, l);
        let mm1 = missing_from(c, p, l + 1);
        lemma_tok_idx_self(c, l);
        if p.contains(c[l]) {
            assert forall|j: int|
                l <= j < c.len() && !p.contains(#[trigger] c[j]) implies mm.contains(c[j]) by {
                assert(j != l);
                assert(mm1.contains(c[j]));
            }
        } else {
            assert(mm =~= seq![c[l]] + mm1);
            assert(mm[0] == c[l]);
            assert forall|m: int|
                0 <= m < mm.len() implies !p.contains(#[trigger] mm[m]) && l <= tok_idx(c, mm[m])
                < c.len() && c[tok_idx(c, mm[m])] == mm[m] by {
                if m > 0 {
                    assert(mm[m] == mm1[m - 1]);
                }
            }
            assert forall|m1: int, m2: int|
                0 <= m1 < m2 < mm.len() implies tok_idx(c, #[trigger] mm[m1]) < tok_idx(
                c,
                #[trigger] mm[m2],
            ) by {
                assert(mm[m2] == mm1[m2 - 1]);
                if m1 > 0 {
                    assert(mm[m1] == mm1[m1 - 1]);
                } else {
                    assert(tok_idx(c, mm[m1]) == l);
                    assert(l + 1 <= tok_idx(c, mm1[m2 - 1]));
                }
            }
            assert forall|j: int|
                l <= j < c.len() && !p.contains(#[trigger] c[j]) implies mm.contains(c[j]) by {
                if j == l {
                    assert(mm[0] == c[j]);
                } else {
                    assert(mm1.contains(c[j]));
                    let m = choose|m: int| 0 <= m < mm1.len() && mm1[m] == c[j];
                    assert(mm[m + 1] == c[j]);
                }
            }
        }
    }
}

/// Two sequences without duplicates that contain the same tokens have the
/// same multiset.
pub proof fn lemma_distinct_same_membership_multiset(s: Seq<usize>, t: Seq<usize>)
    requires
        distinct_seq(s),
        distinct_seq(t),
        forall|x: usize| s.contains(x) <==> t.contains(x),
    ensures
        s.to_multiset() == t.to_multiset(),
{
    broadcast use vstd::seq_lib::group_to_multiset_ensures;

    assert(s.no_duplicates());
    assert(t.no_duplicates());
    s.lemma_multiset_has_no_duplicates();
    t.lemma_multiset_has_no_duplicates();
    assert forall|x: usize| s.to_multiset().count(x) == t.to_multiset().count(x) by {
        if s.contains(x) {
            assert(s.to_multiset().count(x) == 1);
            assert(t.to_multiset().count(x) == 1);
        } else {
            assert(!t.contains(x));
            assert(s.to_multiset().count(x) == 0);
            assert(t.to_multiset().count(x) == 0);
        }
    }
    assert(s.to_multiset() =~= t.to_multiset());
}

/// The tokens of `c[l..]` split into the present and the missing ones.
proof fn lemma_present_missing_partition(c: Seq<usize>, p: Seq<usize>, l: int)
    requires
        0 <= l <= c.len(),
    ensures
        present_from(c, p, l).to_multiset().add(missing_from(c, p, l).to_multiset()) == c.skip(
            l,
        ).to_multiset(),
    decreases c.len() - l,
{
    broadcast use vstd::seq_lib::group_to_multiset_ensures;
    broadcast use vstd::multiset::group_multiset_axioms;

    if l >= c.len() {
        assert(c.skip(l) =~= Seq::<usize>::empty());
        Seq::<usize>::empty().to_multiset_ensures();
        assert(Seq::<usize>::empty().to_multiset() =~= Multiset::<usize>::empty());
        assert(present_from(c, p, l).to_multiset().add(missing_from(c, p, l).to_multiset())
            =~= c.skip(l).to_multiset());
    } else {
        lemma_present_missing_partition(c, p, l + 1);
        crate::perms::lemma_skip_multiset_step(c, l);
        if p.contains(c[l]) {
            assert(present_from(c, p, l) =~= seq![c[l]] + present_from(c, p, l + 1));
            lemma_cons_multiset(c[l], present_from(c, p, l + 1));
            assert(present_from(c, p, l).to_multiset().add(missing_from(c, p, l).to_multiset())
                =~= c.skip(l).to_multiset());
        } else {
            assert(missing_from(c, p, l) =~= seq![c[l]] + missing_from(c, p, l + 1));
            lemma_cons_multiset(c[l], missing_from(c, p, l + 1));
            assert(present_from(c, p, l).to_multiset().add(missing_from(c, p, l).to_multiset())
                =~= c.skip(l).to_multiset());
        }
    }
}

/// Putting one token in front inserts it into the multiset.
proof fn lemma_cons_multiset(x: usize, s: Seq<usize>)
    ensures
        (seq![x] + s).to_multiset() == s.to_multiset().insert(x),
{
    broadcast use vstd::seq_lib::group_to_multiset_ensures;
    broadcast use vstd::multiset::group_multiset_axioms;

    vstd::seq_lib::lemma_multiset_commutative(seq![x], s);
    assert(seq![x] =~= Seq::empty().push(x));
    assert(seq![x].to_multiset() =~= Multiset::empty().insert(x));
    assert(Multiset::empty().insert(x).add(s.to_multiset()) =~= s.to_multiset().insert(x));
}

/// The present tokens are exactly the prefix, as a multiset.
proof fn lemma_present_is_prefix(c: Seq<usize>, p: Seq<usize>)
    requires
        prefix_ctx(c, p),
    ensures
        present_from(c, p, 0).to_multiset() == p.to_multiset(),
{
    lemma_present_distinct_membership(c, p, 0);
    let pr = present_from(c, p, 0);
    assert forall|x: usize| pr.contains(x) <==> p.contains(x) by {
        if p.contains(x) {
            let m = choose|m: int| 0 <= m < p.len() && p[m] == x;
            assert(c.contains(p[m]));
            let j = choose|j: int| 0 <= j < c.len() && c[j] == x;
            assert(pr.contains(c[j]));
        }
    }
    lemma_distinct_same_membership_multiset(pr, p);
}

/// The present tokens: each in `p`, each a token of `c[l..]`, in strictly
/// increasing index order (hence distinct), and complete.
proof fn lemma_present_distinct_membership(c: Seq<usize>, p: Seq<usize>, l: int)
    requires
        distinct_seq(c),
        0 <= l <= c.len(),
    ensures
        ({
            let pr = present_from(c, p, l);
            &&& forall|m: int|
                0 <= m < pr.len() ==> p.contains(#[trigger] pr[m]) && l <= tok_idx(c, pr[m])
                    < c.len() && c[tok_idx(c, pr[m])] == pr[m]
            &&& forall|m1: int, m2: int|
                0 <= m1 < m2 < pr.len() ==> tok_idx(c, #[trigger] pr[m1]) < tok_idx(
                    c,
                    #[trigger] pr[m2],
                )
            &&& forall|j: int| l <= j < c.len() && p.contains(#[trigger] c[j]) ==> pr.contains(c[j])
            &&& distinct_seq(pr)
        }),
    decreases c.len() - l,
{
    if l < c.len() {
        lemma_present_distinct_membership(c, p, l + 1);
        let pr = present_from(c, p, l);
        let pr1 = present_from(c, p, l + 1);
        lemma_tok_idx_self(c, l);
        if !p.contains(c[l]) {
            assert forall|j: int|
                l <= j < c.len() && p.contains(#[trigger] c[j]) implies pr.contains(c[j]) by {
                assert(j != l);
                assert(pr1.contains(c[j]));
            }
        } else {
            assert(pr =~= seq![c[l]] + pr1);
            assert(pr[0] == c[l]);
            assert forall|m: int|
                0 <= m < pr.len() implies p.contains(#[trigger] pr[m]) && l <= tok_idx(c, pr[m])
                < c.len() && c[tok_idx(c, pr[m])] == pr[m] by {
                if m > 0 {
                    assert(pr[m] == pr1[m - 1]);
                }
            }
            assert forall|m1: int, m2: int|
                0 <= m1 < m2 < pr.len() implies tok_idx(c, #[trigger] pr[m1]) < tok_idx(
                c,
                #[trigger] pr[m2],
            ) by {
                assert(pr[m2] == pr1[m2 - 1]);
                if m1 > 0 {
                    assert(pr[m1] == pr1[m1 - 1]);
                } else {
                    assert(tok_idx(c, pr[m1]) == l);
                    assert(l + 1 <= tok_idx(c, pr1[m2 - 1]));
                }
            }
            assert forall|j: int|
                l <= j < c.len() && p.contains(#[trigger] c[j]) implies pr.contains(c[j]) by {
                if j == l {
                    assert(pr[0] == c[j]);
                } else {
                    assert(pr1.contains(c[j]));
                    let m = choose|m: int| 0 <= m < pr1.len() && pr1[m] == c[j];
                    assert(pr[m + 1] == c[j]);
                }
            }
            assert forall|m1: int, m2: int| 0 <= m1 < m2 < pr.len() implies pr[m1] != pr[m2] by {
                assert(tok_idx(c, pr[m1]) < tok_idx(c, pr[m2]));
            }
        }
        assert forall|m1: int, m2: int|
            0 <= m1 < m2 < pr.len() implies #[trigger] pr[m1] != #[trigger] pr[m2] by {
            assert(tok_idx(c, pr[m1]) < tok_idx(c, pr[m2]));
        }
    }
}

/// Both extreme sequences are rearrangements of the base sequence.
pub proof fn lemma_extremes_multiset(c: Seq<usize>, p: Seq<usize>)
    requires
        prefix_ctx(c, p),
    ensures
        low_perm(c, p).to_multiset() == c.to_multiset(),
        high_perm(c, p).to_multiset() == c.to_multiset(),
        missing_of(c, p).len() == c.len() - p.len(),
{
    broadcast use vstd::multiset::group_multiset_axioms;
    broadcast use vstd::seq_lib::group_to_multiset_ensures;

    lemma_present_missing_partition(c, p, 0);
    lemma_present_is_prefix(c, p);
    assert(c.skip(0) =~= c);
    vstd::seq_lib::lemma_multiset_commutative(p, missing_of(c, p));
    assert(low_perm(c, p).to_multiset() =~= c.to_multiset());
    missing_of(c, p).lemma_reverse_to_multiset();
    vstd::seq_lib::lemma_multiset_commutative(p, missing_of(c, p).reverse());
    assert(high_perm(c, p).to_multiset() =~= c.to_multiset());
    // lengths: multisets preserve them
    assert(low_perm(c, p).to_multiset().len() == c.to_multiset().len());
    assert(low_perm(c, p).len() == c.len());
}

/// A rearrangement of a distinct, nonzero base sequence is itself distinct
/// and nonzero, and made of base-sequence tokens.
pub proof fn lemma_rearrangement_facts(c: Seq<usize>, q: Seq<usize>)
    requires
        distinct_seq(c),
        nonzero_seq(c),
        q.to_multiset() == c.to_multiset(),
    ensures
        distinct_seq(q),
        nonzero_seq(q),
        q.len() == c.len(),
        forall|m: int| 0 <= m < q.len() ==> c.contains(#[trigger] q[m]),
{
    broadcast use vstd::seq_lib::group_to_multiset_ensures;

    assert(q.to_multiset().len() == q.len());
    assert(c.to_multiset().len() == c.len());
    assert(c.no_duplicates());
    c.lemma_multiset_has_no_duplicates();
    assert forall|x: usize| q.to_multiset().contains(x) implies q.to_multiset().count(x) == 1 by {
        assert(c.to_multiset().contains(x));
    }
    q.lemma_multiset_has_no_duplicates_conv();
    assert forall|m: int| 0 <= m < q.len() implies c.contains(#[trigger] q[m]) by {
        assert(q.contains(q[m]));
        assert(q.to_multiset().count(q[m]) > 0);
    }
    assert forall|m: int| 0 <= m < q.len() implies q[m] != 0 by {
        assert(c.contains(q[m]));
        let j = choose|j: int| 0 <= j < c.len() && c[j] == q[m];
    }
    assert(distinct_seq(q));
}

/// The region after a shared prefix holds the same tokens in any
/// rearrangement: its multiset is the missing tokens'.
pub proof fn lemma_tail_multiset(c: Seq<usize>, p: Seq<usize>, q: Seq<usize>)
    requires
        prefix_ctx(c, p),
        q.to_multiset() == c.to_multiset(),
        seq_starts_with(q, p),
    ensures
        q.skip(p.len() as int).to_multiset() == missing_of(c, p).to_multiset(),
{
    broadcast use vstd::multiset::group_multiset_axioms;

    let k = p.len() as int;
    lemma_extremes_multiset(c, p);
    assert(q =~= q.take(k) + q.skip(k));
    assert(q.take(k) =~= p);
    vstd::seq_lib::lemma_multiset_commutative(p, q.skip(k));
    vstd::seq_lib::lemma_multiset_commutative(p, missing_of(c, p));
    let a = p.to_multiset();
    let b1 = q.skip(k).to_multiset();
    let b2 = missing_of(c, p).to_multiset();
    assert(a.add(b1) == a.add(b2));
    assert forall|x: usize| b1.count(x) == b2.count(x) by {
        assert(a.add(b1).count(x) == a.add(b2).count(x));
    }
    assert(b1 =~= b2);
}

/// For a rearrangement `q` of `c`, a scan finds exactly the inversion
/// counts: token `c[i]`'s digit is the number of later-indexed tokens before
/// it in `q`.
pub proof fn lemma_scan_is_inversions(c: Seq<usize>, q: Seq<usize>, f: Seq<bool>, i: int)
    requires
        distinct_seq(c),
        nonzero_seq(c),
        q.to_multiset() == c.to_multiset(),
        q.len() == c.len(),
        f.len() == c.len(),
        0 <= i <= c.len(),
        forall|m: int| 0 <= m < q.len() ==> f[m] == (tok_idx(c, #[trigger] q[m]) < i),
    ensures
        scan_from(c, q, f, i) == Some(
            Seq::new((c.len() - i) as nat, |j: int| inv_digit(c, q, i + j) as usize),
        ),
    decreases c.len() - i,
{
    let n = c.len() as int;
    lemma_rearrangement_facts(c, q);
    if i >= n {
        assert(Seq::new((c.len() - i) as nat, |j: int| inv_digit(c, q, i + j) as usize)
            =~= Seq::<usize>::empty());
    } else {
        broadcast use vstd::seq_lib::group_to_multiset_ensures;

        lemma_tok_idx_self(c, i);
        assert(q.to_multiset().count(c[i]) > 0) by {
            assert(c.contains(c[i]));
        }
        assert(q.contains(c[i]));
        lemma_find_in_char(q, 0, c[i]);
        let m0 = find_in(q, 0, c[i]);
        assert(m0 < n) by {
            if m0 == n {
                let mx = choose|mx: int| 0 <= mx < q.len() && q[mx] == c[i];
                assert(q[mx] != c[i]);
            }
        }
        assert(q[m0] == c[i]);
        assert(!f[m0]) by {
            assert(tok_idx(c, q[m0]) == i);
        }
        lemma_find_free_match_unique(q, f, c[i], 0, m0);
        // the recorded digit is the inversion count
        assert forall|m: int| 0 <= m < m0 implies (!f[m]) == gt_pred(c, i)(q[m]) by {
            assert(q[m] != c[i]);
            assert(c[tok_idx(c, q[m])] == q[m]) by {
                let j = choose|j: int| 0 <= j < c.len() && c[j] == q[m];
                lemma_tok_idx_self(c, j);
            }
            assert(tok_idx(c, q[m]) != i);
        }
        lemma_count_agree(f, q, unfilled_pred(), gt_pred(c, i), 0, m0);
        assert(count_range(f, unfilled_pred(), 0, m0) == inv_digit(c, q, i));
        // the claimed-set invariant carries to the next token
        let f1 = f.update(m0, true);
        assert forall|m: int| 0 <= m < q.len() implies f1[m] == (tok_idx(c, #[trigger] q[m]) < i
            + 1) by {
            if m == m0 {
                assert(tok_idx(c, q[m0]) == i);
            } else {
                assert(q[m] != q[m0]);
                assert(c[tok_idx(c, q[m])] == q[m]) by {
                    let j = choose|j: int| 0 <= j < c.len() && c[j] == q[m];
                    lemma_tok_idx_self(c, j);
                }
                assert(tok_idx(c, q[m]) != i);
            }
        }
        lemma_scan_is_inversions(c, q, f1, i + 1);
        assert(inv_digit(c, q, i) <= m0) by {
            lemma_count_le(q, gt_pred(c, i), 0, m0);
        }
        assert(Seq::new((c.len() - i) as nat, |j: int| inv_digit(c, q, i + j) as usize)
            =~= seq![inv_digit(c, q, i) as usize] + Seq::new(
            (c.len() - (i + 1)) as nat,
            |j: int| inv_digit(c, q, i + 1 + j) as usize,
        ));
    }
}

/// A rearrangement's scan digits are its inversion counts.
pub proof fn lemma_digits_are_inversions(c: Seq<usize>, q: Seq<usize>)
    requires
        distinct_seq(c),
        nonzero_seq(c),
        q.to_multiset() == c.to_multiset(),
    ensures
        spec_scan(c, q) == Some(inv_digits(c, q)),
{
    broadcast use vstd::seq_lib::group_to_multiset_ensures;

    assert(q.to_multiset().len() == q.len());
    assert(c.to_multiset().len() == c.len());
    let f = Seq::new(q.len(), |m: int| false);
    assert forall|m: int| 0 <= m < q.len() implies f[m] == (tok_idx(c, #[trigger] q[m]) < 0) by {
        lemma_find_in_char(c, 0, q[m]);
    }
    lemma_scan_is_inversions(c, q, f, 0);
    assert(Seq::new((c.len() - 0) as nat, |j: int| inv_digit(c, q, 0 + j) as usize) =~= inv_digits(
        c,
        q,
    ));
}


/// A token of the base sequence sits at its index.
pub proof fn lemma_tok_idx_of(c: Seq<usize>, t: usize)
    requires
        c.contains(t),
    ensures
        0 <= tok_idx(c, t) < c.len(),
        c[tok_idx(c, t)] == t,
{
    lemma_find_in_char(c, 0, t);
    if find_in(c, 0, t) == c.len() {
        let j = choose|j: int| 0 <= j < c.len() && c[j] == t;
        assert(c[j] != t);
    }
}

/// The digit a prefix token is pinned to: the number of prefix tokens before
/// it that carry a larger base-sequence index.
pub open spec fn fix_digit(c: Seq<usize>, p: Seq<usize>, i: int) -> nat {
    count_range(p, gt_pred(c, i), 0, find_in(p, 0, c[i]))
}

/// The least digit a missing token can take: the number of prefix tokens
/// with a larger base-sequence index.
pub open spec fn lo_digit(c: Seq<usize>, p: Seq<usize>, i: int) -> nat {
    count_range(p, gt_pred(c, i), 0, p.len() as int)
}

/// The greatest digit a missing token can take: the least one plus the
/// number of missing tokens with a larger base-sequence index.
pub open spec fn hi_digit(c: Seq<usize>, p: Seq<usize>, i: int) -> nat {
    (lo_digit(c, p, i) + missing_of(c, p).len() - 1 - find_in(missing_of(c, p), 0, c[i])) as nat
}

/// In every rearrangement that starts with the prefix, a prefix token's
/// digit is fixed.
pub proof fn lemma_prefix_digit_fixed(c: Seq<usize>, p: Seq<usize>, q: Seq<usize>, i: int)
    requires
        prefix_ctx(c, p),
        q.to_multiset() == c.to_multiset(),
        seq_starts_with(q, p),
        0 <= i < c.len(),
        p.contains(c[i]),
    ensures
        inv_digit(c, q, i) == fix_digit(c, p, i),
{
    broadcast use vstd::seq_lib::group_to_multiset_ensures;

    lemma_rearrangement_facts(c, q);
    lemma_find_in_char(p, 0, c[i]);
    let j = find_in(p, 0, c[i]);
    assert(j < p.len()) by {
        if j == p.len() {
            let m = choose|m: int| 0 <= m < p.len() && p[m] == c[i];
            assert(p[m] != c[i]);
        }
    }
    assert(p[j] == c[i]);
    assert(q[j] == c[i]);
    assert forall|m: int| 0 <= m < j implies q[m] != c[i] by {
        assert(q[m] == p[m] && p[m] != p[j]);
    }
    lemma_find_in_unique(q, 0, c[i], j);
    lemma_count_agree(q, p, gt_pred(c, i), gt_pred(c, i), 0, j);
}

/// In every rearrangement that starts with the prefix, a missing token's
/// digit lies between its low and high bounds.
pub proof fn lemma_missing_digit_bounds(c: Seq<usize>, p: Seq<usize>, q: Seq<usize>, i: int)
    requires
        prefix_ctx(c, p),
        q.to_multiset() == c.to_multiset(),
        seq_starts_with(q, p),
        0 <= i < c.len(),
        !p.contains(c[i]),
    ensures
        lo_digit(c, p, i) <= inv_digit(c, q, i),
        inv_digit(c, q, i) <= hi_digit(c, p, i),
{
    broadcast use vstd::seq_lib::group_to_multiset_ensures;

    let n = c.len() as int;
    let k = p.len() as int;
    let mm = missing_of(c, p);
    lemma_rearrangement_facts(c, q);
    lemma_missing_main(c, p, 0);
    lemma_extremes_multiset(c, p);
    lemma_tok_idx_self(c, i);
    // the position of the token in q is past the prefix
    assert(q.to_multiset().count(c[i]) > 0) by {
        assert(c.contains(c[i]));
    }
    assert(q.contains(c[i]));
    lemma_find_in_char(q, 0, c[i]);
    let pos = find_in(q, 0, c[i]);
    assert(pos < n) by {
        if pos == q.len() {
            let m = choose|m: int| 0 <= m < q.len() && q[m] == c[i];
            assert(q[m] != c[i]);
        }
    }
    assert(pos >= k) by {
        if pos < k {
            assert(q[pos] == p[pos]);
            assert(p.contains(p[pos]));
        }
    }
    lemma_count_split(q, gt_pred(c, i), 0, k, pos);
    lemma_count_agree(q, p, gt_pred(c, i), gt_pred(c, i), 0, k);
    // the position of the token in the missing sequence
    assert(mm.contains(c[i]));
    lemma_find_in_char(mm, 0, c[i]);
    let posm = find_in(mm, 0, c[i]);
    assert(posm < mm.len()) by {
        if posm == mm.len() {
            let m = choose|m: int| 0 <= m < mm.len() && mm[m] == c[i];
            assert(mm[m] != c[i]);
        }
    }
    assert(mm[posm] == c[i]);
    // count of later-indexed tokens over the whole missing sequence
    lemma_count_split(mm, gt_pred(c, i), 0, posm, mm.len() as int);
    lemma_count_unfold_left(mm, gt_pred(c, i), posm, mm.len() as int);
    assert(!gt_pred(c, i)(mm[posm])) by {
        assert(tok_idx(c, c[i]) == i);
    }
    assert forall|m: int| 0 <= m < posm implies !gt_pred(c, i)(mm[m]) by {
        if tok_idx(c, mm[m]) == tok_idx(c, mm[posm]) {
            assert(c[tok_idx(c, mm[m])] == mm[m]);
            assert(mm[m] == c[i]);
        }
        assert(tok_idx(c, mm[m]) < tok_idx(c, mm[posm]));
    }
    lemma_count_none(mm, gt_pred(c, i), 0, posm);
    assert forall|m: int| posm < m < mm.len() implies gt_pred(c, i)(mm[m]) by {
        assert(tok_idx(c, mm[posm]) < tok_idx(c, mm[m]));
    }
    lemma_count_all(mm, gt_pred(c, i), posm + 1, mm.len() as int);
    assert(count_range(mm, gt_pred(c, i), 0, mm.len() as int) == mm.len() - 1 - posm);
    // transfer the count into q's tail region
    lemma_tail_multiset(c, p, q);
    lemma_count_transfer(q.skip(k), mm, gt_pred(c, i));
    lemma_count_offset(q.skip(k), q, gt_pred(c, i), gt_pred(c, i), 0, q.skip(k).len() as int, k);
    assert(count_range(q, gt_pred(c, i), k, n) == mm.len() - 1 - posm);
    lemma_count_split(q, gt_pred(c, i), k, pos, n);
    assert(count_range(q, gt_pred(c, i), k, pos) <= mm.len() - 1 - posm);
}

/// In the low extreme, a missing token's digit is exactly its low bound.
pub proof fn lemma_low_perm_digit(c: Seq<usize>, p: Seq<usize>, i: int)
    requires
        prefix_ctx(c, p),
        0 <= i < c.len(),
        !p.contains(c[i]),
    ensures
        inv_digit(c, low_perm(c, p), i) == lo_digit(c, p, i),
{
    let n = c.len() as int;
    let k = p.len() as int;
    let mm = missing_of(c, p);
    let q = low_perm(c, p);
    lemma_missing_main(c, p, 0);
    lemma_extremes_multiset(c, p);
    lemma_tok_idx_self(c, i);
    assert(mm.contains(c[i]));
    lemma_find_in_char(mm, 0, c[i]);
    let posm = find_in(mm, 0, c[i]);
    assert(posm < mm.len()) by {
        if posm == mm.len() {
            let m = choose|m: int| 0 <= m < mm.len() && mm[m] == c[i];
            assert(mm[m] != c[i]);
        }
    }
    assert(q.len() == n);
    assert(q[k + posm] == c[i]);
    assert forall|m: int| 0 <= m < k + posm implies q[m] != c[i] by {
        if m < k {
            assert(q[m] == p[m] && p.contains(p[m]));
        } else {
            assert(q[m] == mm[m - k]);
            assert(tok_idx(c, mm[m - k]) < tok_idx(c, mm[posm]));
            if mm[m - k] == c[i] {
                assert(tok_idx(c, mm[m - k]) == i);
            }
        }
    }
    lemma_find_in_unique(q, 0, c[i], k + posm);
    lemma_count_split(q, gt_pred(c, i), 0, k, k + posm);
    lemma_count_agree(q, p, gt_pred(c, i), gt_pred(c, i), 0, k);
    assert forall|m: int| k <= m < k + posm implies !gt_pred(c, i)(q[m]) by {
        assert(q[m] == mm[m - k]);
        assert(tok_idx(c, mm[m - k]) < tok_idx(c, mm[posm]));
        assert(tok_idx(c, mm[posm]) == i);
    }
    lemma_count_none(q, gt_pred(c, i), k, k + posm);
}

/// In the high extreme, a missing token's digit is exactly its high bound.
pub proof fn lemma_high_perm_digit(c: Seq<usize>, p: Seq<usize>, i: int)
    requires
        prefix_ctx(c, p),
        0 <= i < c.len(),
        !p.contains(c[i]),
    ensures
        inv_digit(c, high_perm(c, p), i) == hi_digit(c, p, i),
{
    let n = c.len() as int;
    let k = p.len() as int;
    let mm = missing_of(c, p);
    let rv = mm.reverse();
    let q = high_perm(c, p);
    lemma_missing_main(c, p, 0);
    lemma_extremes_multiset(c, p);
    lemma_tok_idx_self(c, i);
    assert(mm.contains(c[i]));
    lemma_find_in_char(mm, 0, c[i]);
    let posm = find_in(mm, 0, c[i]);
    assert(posm < mm.len()) by {
        if posm == mm.len() {
            let m = choose|m: int| 0 <= m < mm.len() && mm[m] == c[i];
            assert(mm[m] != c[i]);
        }
    }
    let posr = mm.len() - 1 - posm;
    assert(q.len() == n);
    assert(rv[posr] == mm[posm]);
    assert(q[k + posr] == c[i]);
    assert forall|m: int| 0 <= m < k + posr implies q[m] != c[i] by {
        if m < k {
            assert(q[m] == p[m] && p.contains(p[m]));
        } else {
            assert(q[m] == rv[m - k]);
            assert(rv[m - k] == mm[mm.len() - 1 - (m - k)]);
            assert(posm < mm.len() - 1 - (m - k));
            assert(tok_idx(c, mm[posm]) < tok_idx(c, mm[mm.len() - 1 - (m - k)]));
            if rv[m - k] == c[i] {
                assert(tok_idx(c, rv[m - k]) == i);
            }
        }
    }
    lemma_find_in_unique(q, 0, c[i], k + posr);
    lemma_count_split(q, gt_pred(c, i), 0, k, k + posr);
    lemma_count_agree(q, p, gt_pred(c, i), gt_pred(c, i), 0, k);
    assert forall|m: int| k <= m < k + posr implies gt_pred(c, i)(q[m]) by {
        assert(q[m] == rv[m - k]);
        assert(rv[m - k] == mm[mm.len() - 1 - (m - k)]);
        assert(posm < mm.len() - 1 - (m - k));
        assert(tok_idx(c, mm[posm]) < tok_idx(c, mm[mm.len() - 1 - (m - k)]));
    }
    lemma_count_all(q, gt_pred(c, i), k, k + posr);
}

/// Completeness of the digit box: every rearrangement that starts with the
/// prefix has digits between the two extremes' digits, position by position.
pub proof fn lemma_prefix_in_box(c: Seq<usize>, p: Seq<usize>, q: Seq<usize>)
    requires
        prefix_ctx(c, p),
        q.to_multiset() == c.to_multiset(),
        seq_starts_with(q, p),
    ensures
        forall|i: int|
            0 <= i < c.len() ==> inv_digit(c, low_perm(c, p), i) <= #[trigger] inv_digit(c, q, i)
                <= inv_digit(c, high_perm(c, p), i),
{
    lemma_extremes_multiset(c, p);
    assert forall|i: int|
        0 <= i < c.len() implies inv_digit(c, low_perm(c, p), i) <= #[trigger] inv_digit(c, q, i)
        <= inv_digit(c, high_perm(c, p), i) by {
        if p.contains(c[i]) {
            lemma_prefix_digit_fixed(c, p, q, i);
            lemma_prefix_digit_fixed(c, p, low_perm(c, p), i);
            lemma_prefix_digit_fixed(c, p, high_perm(c, p), i);
        } else {
            lemma_missing_digit_bounds(c, p, q, i);
            lemma_low_perm_digit(c, p, i);
            lemma_high_perm_digit(c, p, i);
            lemma_missing_digit_bounds(c, p, high_perm(c, p), i);
        }
    }
}

/// Soundness of the digit box: a rearrangement whose digits lie between the
/// two extremes' digits starts with the prefix, position by position.
pub proof fn lemma_box_gives_prefix(c: Seq<usize>, p: Seq<usize>, q: Seq<usize>, upto: int)
    requires
        prefix_ctx(c, p),
        q.to_multiset() == c.to_multiset(),
        0 <= upto <= p.len(),
        forall|i: int|
            0 <= i < c.len() ==> inv_digit(c, low_perm(c, p), i) <= #[trigger] inv_digit(c, q, i)
                <= inv_digit(c, high_perm(c, p), i),
    ensures
        forall|m: int| 0 <= m < upto ==> q[m] == p[m],
    decreases upto,
{
    broadcast use vstd::seq_lib::group_to_multiset_ensures;

    if upto > 0 {
        lemma_box_gives_prefix(c, p, q, upto - 1);
        let n = c.len() as int;
        let k = p.len() as int;
        let y = upto - 1;
        lemma_rearrangement_facts(c, q);
        lemma_extremes_multiset(c, p);
        let tstar = p[y];
        assert(c.contains(tstar));
        lemma_tok_idx_of(c, tstar);
        let istar = tok_idx(c, tstar);
        assert(p.contains(c[istar]));
        // the digit of the prefix token at position y is pinned
        lemma_prefix_digit_fixed(c, p, low_perm(c, p), istar);
        lemma_prefix_digit_fixed(c, p, high_perm(c, p), istar);
        assert(inv_digit(c, q, istar) == fix_digit(c, p, istar));
        assert(find_in(p, 0, c[istar]) == y) by {
            assert(p[y] == c[istar]);
            assert forall|m: int| 0 <= m < y implies p[m] != c[istar] by {
                assert(p[m] != p[y]);
            }
            lemma_find_in_unique(p, 0, c[istar], y);
        }
        // where the token actually sits in q
        assert(q.to_multiset().count(tstar) > 0) by {
            assert(c.contains(tstar));
        }
        assert(q.contains(tstar));
        lemma_find_in_char(q, 0, tstar);
        let posq = find_in(q, 0, tstar);
        assert(posq < n) by {
            if posq == q.len() {
                let m = choose|m: int| 0 <= m < q.len() && q[m] == tstar;
                assert(q[m] != tstar);
            }
        }
        assert(posq >= y) by {
            if posq < y {
                assert(q[posq] == p[posq]);
                assert(p[posq] != p[y]);
            }
        }
        lemma_count_split(q, gt_pred(c, istar), 0, y, posq);
        lemma_count_agree(q, p, gt_pred(c, istar), gt_pred(c, istar), 0, y);
        assert(count_range(q, gt_pred(c, istar), y, posq) == 0);
        if q[y] != tstar {
            assert(posq > y);
            let u = q[y];
            assert(c.contains(u));
            lemma_tok_idx_of(c, u);
            let lu = tok_idx(c, u);
            assert(lu != istar) by {
                if lu == istar {
                    assert(c[lu] == u && c[istar] == tstar);
                }
            }
            lemma_count_unfold_left(q, gt_pred(c, istar), y, posq);
            if lu > istar {
                assert(gt_pred(c, istar)(q[y]));
                assert(false);
            } else {
                // the token at position y has a smaller index: its own digit
                // would fall below its least possible digit
                assert(find_in(q, 0, u) == y) by {
                    assert forall|m: int| 0 <= m < y implies q[m] != u by {
                        assert(q[m] == p[m]);
                        if p.contains(u) {
                            lemma_find_in_char(p, 0, u);
                            let mpp = find_in(p, 0, u);
                            assert(mpp < p.len()) by {
                                if mpp == p.len() {
                                    let mx = choose|mx: int| 0 <= mx < p.len() && p[mx] == u;
                                    assert(p[mx] != u);
                                }
                            }
                            assert(mpp > y) by {
                                if mpp < y {
                                    assert(q[mpp] == p[mpp]);
                                    assert(q[mpp] == u && q[y] == u);
                                    assert(mpp != y);
                                } else if mpp == y {
                                    assert(p[y] == u);
                                }
                            }
                            if p[m] == u {
                                assert(m != mpp);
                                assert(p[m] != p[mpp]);
                            }
                        } else {
                            if p[m] == u {
                                assert(p.contains(u));
                            }
                        }
                    }
                    lemma_find_in_unique(q, 0, u, y);
                }
                assert(inv_digit(c, q, lu) == count_range(q, gt_pred(c, lu), 0, y));
                lemma_count_agree(q, p, gt_pred(c, lu), gt_pred(c, lu), 0, y);
                let av = count_range(p, gt_pred(c, lu), 0, y);
                assert(inv_digit(c, q, lu) == av);
                assert(gt_pred(c, lu)(p[y])) by {
                    assert(tok_idx(c, p[y]) == istar);
                }
                if p.contains(u) {
                    // a prefix token: its digit is pinned strictly above
                    lemma_prefix_digit_fixed(c, p, low_perm(c, p), lu);
                    lemma_prefix_digit_fixed(c, p, high_perm(c, p), lu);
                    assert(inv_digit(c, q, lu) == fix_digit(c, p, lu));
                    lemma_find_in_char(p, 0, u);
                    let mpp = find_in(p, 0, u);
                    assert(mpp < p.len()) by {
                        if mpp == p.len() {
                            let mx = choose|mx: int| 0 <= mx < p.len() && p[mx] == u;
                            assert(p[mx] != u);
                        }
                    }
                    assert(mpp > y) by {
                        if mpp < y {
                            assert(q[mpp] == p[mpp] && p[mpp] == u);
                            assert(q[mpp] == q[y] && mpp != y);
                        } else if mpp == y {
                            assert(p[y] == u);
                        }
                    }
                    assert(fix_digit(c, p, lu) == count_range(p, gt_pred(c, lu), 0, mpp)) by {
                        assert(c[lu] == u);
                    }
                    lemma_count_split(p, gt_pred(c, lu), 0, y, mpp);
                    lemma_count_unfold_left(p, gt_pred(c, lu), y, mpp);
                    assert(count_range(p, gt_pred(c, lu), 0, mpp) >= av + 1);
                    assert(false);
                } else {
                    // a missing token: its digit would fall below the low bound
                    assert(!p.contains(c[lu])) by {
                        assert(c[lu] == u);
                    }
                    lemma_low_perm_digit(c, p, lu);
                    assert(inv_digit(c, q, lu) >= lo_digit(c, p, lu));
                    lemma_count_split(p, gt_pred(c, lu), 0, y, k);
                    lemma_count_unfold_left(p, gt_pred(c, lu), y, k);
                    assert(lo_digit(c, p, lu) >= av + 1);
                    assert(false);
                }
            }
        }
    }
}

/// An inversion count never exceeds the sequence length.
pub proof fn lemma_inv_digit_bound(c: Seq<usize>, q: Seq<usize>, i: int)
    requires
        0 <= i < c.len(),
    ensures
        inv_digit(c, q, i) <= q.len(),
{
    lemma_find_in_char(q, 0, c[i]);
    let pos = find_in(q, 0, c[i]);
    lemma_count_le(q, gt_pred(c, i), 0, pos);
}

} // verus!
