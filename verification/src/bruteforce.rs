//! The naive strategy: materialize every permutation of the alphabet and
//! scan the candidate sequence window by window.

use itertools::Itertools;
use vstd::prelude::*;

use crate::base::{
    contains_window, count_true, covered_upto, idseq, is_perm_of, is_superperm,
    lemma_count_true_full, lemma_idseq, lemma_short_no_superperm, lemma_window_extend, lex_less,
    tail_matches, true_pred, window_at, window_matches, SuperPermHandling,
};
use crate::count::{lemma_count_all, lemma_count_none, lemma_count_update};
use crate::perms::{fact, lemma_fact_pos, seq_starts_with};

verus! {

/// Relies on itertools' `permutations`: asked for length-`n` permutations of
/// the `n` distinct tokens `1..=n` (buffered in ascending order), it yields
/// every ordering of all the tokens exactly once — `n!` vectors, pairwise
/// distinct, in lexicographic order, the base sequence `1..=n` first — and
/// every permutation of `1..=n` is among them.
#[verifier::external_body]
fn generate_perms(n: usize) -> (r: Vec<Vec<usize>>)
    requires
        fact(n as nat) <= usize::MAX,
    ensures
        r@.len() == fact(n as nat),
        forall|x: int| 0 <= x < r@.len() ==> is_perm_of(#[trigger] r@[x]@, n as nat),
        forall|q: Seq<usize>|
            #[trigger] is_perm_of(q, n as nat) ==> exists|x: int| 0 <= x < r@.len() && r@[x]@ == q,
        r@[0]@ == idseq(n as nat),
        forall|x1: int, x2: int| 0 <= x1 < x2 < r@.len() ==> r@[x1]@ != r@[x2]@,
        forall|x1: int, x2: int|
            0 <= x1 < x2 < r@.len() ==> lex_less(#[trigger] r@[x1]@, #[trigger] r@[x2]@),
{
    let mut permuts: Vec<Vec<usize>> = Vec::new();
    for perm in (1..n + 1).permutations(n) {
        permuts.push(perm);
    }
    permuts
}

/// Checks whether `potential_super` contains every permutation of `1..=perm_n`
/// as a contiguous window: each window of width `perm_n` is compared against
/// every permutation, and the result is true exactly when all are covered.
pub fn check_superperm(potential_super: &Vec<usize>, perm_n: usize) -> (r: bool)
    requires
        fact(perm_n as nat) <= usize::MAX,
    ensures
        r == is_superperm(potential_super@, perm_n as nat),
{
    let ghost sv = potential_super@;
    let n = perm_n;
    let sl = potential_super.len();
    if n == 0 {
        proof {
            assert forall|q: Seq<usize>|
                #[trigger] is_perm_of(q, 0) implies contains_window(sv, q) by {
                assert(q =~= Seq::<usize>::empty());
                assert(window_at(sv, q, 0));
            }
        }
        return true;
    }
    if n > sl {
        proof {
            lemma_short_no_superperm(sv, n as nat);
        }
        return false;
    }
    let perms = generate_perms(n);
    let np = perms.len();
    let mut checklist: Vec<bool> = Vec::new();
    let mut z: usize = 0;
    while z < np
        invariant
            0 <= z <= np,
            checklist@.len() == z,
            forall|j: int| 0 <= j < z ==> !checklist@[j],
        decreases np - z,
    {
        checklist.push(false);
        z = z + 1;
    }
    proof {
        assert forall|pos: int|
            0 <= pos < np implies checklist@[pos] == covered_upto(sv, perms@[pos]@, 0) by {
            if covered_upto(sv, perms@[pos]@, 0) {
                let o = choose|o: int| o < 0 && #[trigger] window_at(sv, perms@[pos]@, o);
            }
        }
    }
    let mut i: usize = 0;
    while i <= sl - n
        invariant
            0 <= i <= sl - n + 1,
            1 <= n <= sl,
            sl == sv.len(),
            potential_super@ == sv,
            np == perms@.len(),
            checklist@.len() == np,
            forall|x: int| 0 <= x < np ==> is_perm_of(#[trigger] perms@[x]@, n as nat),
            forall|pos: int|
                0 <= pos < np ==> checklist@[pos] == covered_upto(sv, #[trigger] perms@[pos]@, i as int),
        decreases sl - i,
    {
        let mut pos: usize = 0;
        while pos < np
            invariant
                0 <= pos <= np,
                0 <= i <= sl - n,
                n <= sl,
                sl == sv.len(),
                potential_super@ == sv,
                np == perms@.len(),
                checklist@.len() == np,
                forall|x: int| 0 <= x < np ==> is_perm_of(#[trigger] perms@[x]@, n as nat),
                forall|pp: int|
                    0 <= pp < np ==> checklist@[pp] == (covered_upto(sv, #[trigger] perms@[pp]@, i as int)
                        || (pp < pos && window_at(sv, perms@[pp]@, i as int))),
            decreases np - pos,
        {
            proof {
                assert(is_perm_of(perms@[pos as int]@, n as nat));
            }
            if window_matches(potential_super, i, &perms[pos]) {
                checklist.set(pos, true);
            }
            pos = pos + 1;
        }
        proof {
            assert forall|pp: int|
                0 <= pp < np implies checklist@[pp] == covered_upto(
                sv,
                #[trigger] perms@[pp]@,
                i + 1,
            ) by {
                if checklist@[pp] {
                    if covered_upto(sv, perms@[pp]@, i as int) {
                        let o = choose|o: int|
                            o < i && #[trigger] window_at(sv, perms@[pp]@, o);
                        assert(o < i + 1 && window_at(sv, perms@[pp]@, o));
                    } else {
                        assert(window_at(sv, perms@[pp]@, i as int));
                    }
                } else {
                    if covered_upto(sv, perms@[pp]@, i + 1) {
                        let o = choose|o: int|
                            o < i + 1 && #[trigger] window_at(sv, perms@[pp]@, o);
                        if o < i {
                            assert(covered_upto(sv, perms@[pp]@, i as int));
                        } else {
                            assert(window_at(sv, perms@[pp]@, i as int));
                        }
                        assert(false);
                    }
                }
            }
        }
        i = i + 1;
    }
    let mut pos: usize = 0;
    while pos < np
        invariant
            0 <= pos <= np,
            n <= sl,
            n == perm_n,
            sl == sv.len(),
            potential_super@ == sv,
            np == perms@.len(),
            checklist@.len() == np,
            forall|x: int| 0 <= x < np ==> is_perm_of(#[trigger] perms@[x]@, n as nat),
            forall|q: Seq<usize>|
                #[trigger] is_perm_of(q, n as nat) ==> exists|x: int|
                    0 <= x < np && perms@[x]@ == q,
            forall|pp: int|
                0 <= pp < np ==> checklist@[pp] == covered_upto(
                    sv,
                    #[trigger] perms@[pp]@,
                    sv.len() - n + 1,
                ),
            forall|pp: int| 0 <= pp < pos ==> checklist@[pp],
        decreases np - pos,
    {
        if !checklist[pos] {
            proof {
                // this permutation occurs nowhere as a window
                assert(is_perm_of(perms@[pos as int]@, n as nat));
                if contains_window(sv, perms@[pos as int]@) {
                    let o = choose|o: int| #[trigger] window_at(sv, perms@[pos as int]@, o);
                    assert(o < sv.len() - n + 1 && window_at(sv, perms@[pos as int]@, o));
                    assert(covered_upto(sv, perms@[pos as int]@, sv.len() - n + 1));
                    assert(false);
                }
                assert(!is_superperm(sv, n as nat));
            }
            return false;
        }
        pos = pos + 1;
    }
    proof {
        assert forall|q: Seq<usize>|
            #[trigger] is_perm_of(q, n as nat) implies contains_window(sv, q) by {
            let x = choose|x: int| 0 <= x < np && perms@[x]@ == q;
            assert(checklist@[x]);
            let o = choose|o: int| o < sv.len() - n + 1 && #[trigger] window_at(sv, perms@[x]@, o);
            assert(window_at(sv, q, o));
        }
    }
    true
}

/// Builds a superpermutation over `1..=perm_n` greedily: starting from the
/// first permutation, it repeatedly extends the sequence by the unchecked
/// permutation that overlaps the current tail the most (longest overlap
/// first, first match in the materialized order), falling back to appending
/// the first unchecked permutation whole.
pub fn create_superperm(perm_n: usize) -> (r: Vec<usize>)
    requires
        fact(perm_n as nat) <= usize::MAX,
    ensures
        is_superperm(r@, perm_n as nat),
        seq_starts_with(r@, idseq(perm_n as nat)),
        perm_n + fact(perm_n as nat) - 1 <= r@.len(),
        r@.len() <= perm_n * fact(perm_n as nat),
{
    let n = perm_n;
    if n == 0 {
        let empty: Vec<usize> = Vec::new();
        proof {
            assert forall|q: Seq<usize>|
                #[trigger] is_perm_of(q, 0) implies contains_window(empty@, q) by {
                assert(q =~= Seq::<usize>::empty());
                assert(window_at(empty@, q, 0));
            }
            assert(0 * fact(0) == 0) by (nonlinear_arith);
        }
        return empty;
    }
    let all_perms = generate_perms(n);
    let np = all_perms.len();
    proof {
        lemma_idseq(n as nat);
        lemma_fact_pos(n as nat);
        assert(np >= 1);
    }
    let mut checklist: Vec<bool> = Vec::new();
    let mut z: usize = 0;
    while z < np
        invariant
            0 <= z <= np,
            checklist@.len() == z,
            forall|j: int| 0 <= j < z ==> !checklist@[j],
        decreases np - z,
    {
        checklist.push(false);
        z = z + 1;
    }
    proof {
        lemma_count_none(checklist@, true_pred(), 0, np as int);
    }
    let mut superperm: Vec<usize> = Vec::new();
    let first = &all_perms[0];
    let mut m: usize = 0;
    proof {
        assert(is_perm_of(all_perms@[0]@, n as nat));
    }
    while m < first.len()
        invariant
            0 <= m <= first@.len(),
            first@ == all_perms@[0]@,
            superperm@ =~= first@.take(m as int),
        decreases first@.len() - m,
    {
        superperm.push(first[m]);
        m = m + 1;
    }
    let ghost ckpre = checklist@;
    checklist.set(0, true);
    proof {
        assert(superperm@ =~= all_perms@[0]@);
        assert(window_at(superperm@, all_perms@[0]@, 0));
        lemma_count_update(ckpre, true_pred(), 0, true, 0, np as int);
        assert(count_true(checklist@, 0, np as int) == 1);
    }
    proof {
        assert(n + count_true(checklist@, 0, np as int) - 1 <= superperm@.len());
        assert(n * (1 - 1) == 0) by (nonlinear_arith);
        assert forall|m: int|
            0 <= m < n implies superperm@[m] == #[trigger] idseq(n as nat)[m] by {
            assert(superperm@[m] == all_perms@[0]@[m]);
        }
    }
    let mut t: usize = 0;
    while t < np
        invariant
            0 <= t <= np,
            1 <= n,
            1 <= np == all_perms@.len(),
            np == fact(n as nat),
            checklist@.len() == np,
            fact(n as nat) <= usize::MAX,
            forall|x: int| 0 <= x < np ==> is_perm_of(#[trigger] all_perms@[x]@, n as nat),
            forall|q: Seq<usize>|
                #[trigger] is_perm_of(q, n as nat) ==> exists|x: int|
                    0 <= x < np && all_perms@[x]@ == q,
            superperm@.len() >= n,
            forall|m: int| 0 <= m < n ==> superperm@[m] == #[trigger] idseq(n as nat)[m],
            forall|pos: int|
                0 <= pos < np && checklist@[pos] ==> contains_window(
                    superperm@,
                    #[trigger] all_perms@[pos]@,
                ),
            count_true(checklist@, 0, np as int) >= 1,
            n + count_true(checklist@, 0, np as int) - 1 <= superperm@.len(),
            superperm@.len() <= n + n * (count_true(checklist@, 0, np as int) - 1),
            count_true(checklist@, 0, np as int) >= t + 1 || count_true(checklist@, 0, np as int)
                == np,
        decreases np - t,
    {
        let ghost ck0 = checklist@;
        let ghost sp0 = superperm@;
        let mut matched = false;
        let mut ii: usize = 0;
        while ii < n && !matched
            invariant
                0 <= ii <= n,
                1 <= n,
                1 <= np == all_perms@.len(),
                checklist@.len() == np,
                forall|x: int| 0 <= x < np ==> is_perm_of(#[trigger] all_perms@[x]@, n as nat),
                superperm@.len() >= n,
                forall|m: int| 0 <= m < n ==> superperm@[m] == #[trigger] idseq(n as nat)[m],
                forall|pos: int|
                    0 <= pos < np && checklist@[pos] ==> contains_window(
                        superperm@,
                        #[trigger] all_perms@[pos]@,
                    ),
                count_true(checklist@, 0, np as int) >= 1,
                n + count_true(checklist@, 0, np as int) - 1 <= superperm@.len(),
                superperm@.len() <= n + n * (count_true(checklist@, 0, np as int) - 1),
                !matched ==> checklist@ == ck0 && superperm@ == sp0,
                matched ==> count_true(checklist@, 0, np as int) == count_true(ck0, 0, np as int)
                    + 1,
                !matched && ii == n && n >= 1 ==> count_true(checklist@, 0, np as int) == np,
            decreases n - ii,
        {
            let i = n - 1 - ii;
            let mut pos: usize = 0;
            while pos < np && !matched
                invariant
                    0 <= pos <= np,
                    0 <= i < n,
                    1 <= np == all_perms@.len(),
                    checklist@.len() == np,
                    forall|x: int| 0 <= x < np ==> is_perm_of(#[trigger] all_perms@[x]@, n as nat),
                    superperm@.len() >= n,
                    forall|m: int| 0 <= m < n ==> superperm@[m] == #[trigger] idseq(n as nat)[m],
                    forall|pp: int|
                        0 <= pp < np && checklist@[pp] ==> contains_window(
                            superperm@,
                            #[trigger] all_perms@[pp]@,
                        ),
                    count_true(checklist@, 0, np as int) >= 1,
                    n + count_true(checklist@, 0, np as int) - 1 <= superperm@.len(),
                    superperm@.len() <= n + n * (count_true(checklist@, 0, np as int) - 1),
                    !matched ==> checklist@ == ck0 && superperm@ == sp0,
                    !matched && i == 0 ==> forall|pp: int| 0 <= pp < pos ==> ck0[pp],
                    matched ==> count_true(checklist@, 0, np as int) == count_true(
                        ck0,
                        0,
                        np as int,
                    ) + 1,
                decreases np - pos,
            {
                proof {
                    assert(is_perm_of(all_perms@[pos as int]@, n as nat));
                }
                if !checklist[pos] && tail_matches(&superperm, &all_perms[pos], i) {
                    let ghost ckb = checklist@;
                    let ghost spb = superperm@;
                    checklist.set(pos, true);
                    let perm = &all_perms[pos];
                    let mut m2: usize = i;
                    while m2 < perm.len()
                        invariant
                            i <= m2 <= perm@.len(),
                            perm@ == all_perms@[pos as int]@,
                            0 <= pos < np == all_perms@.len(),
                            superperm@ =~= spb + perm@.subrange(i as int, m2 as int),
                        decreases perm@.len() - m2,
                    {
                        superperm.push(perm[m2]);
                        m2 = m2 + 1;
                    }
                    proof {
                        let pv = all_perms@[pos as int]@;
                        assert(superperm@ =~= spb + pv.subrange(i as int, n as int));
                        let off = spb.len() - i;
                        assert(window_at(superperm@, pv, off as int)) by {
                            assert forall|mm: int|
                                0 <= mm < pv.len() implies superperm@[off + mm] == #[trigger] pv[mm] by {
                                if mm < i {
                                    assert(superperm@[off + mm] == spb[spb.len() - i + mm]);
                                    assert(pv[mm] == spb[spb.len() - i + mm]);
                                } else {
                                    assert(superperm@[off + mm] == pv.subrange(
                                        i as int,
                                        n as int,
                                    )[mm - i]);
                                }
                            }
                        }
                        assert forall|pp: int|
                            0 <= pp < np && checklist@[pp] implies contains_window(
                            superperm@,
                            #[trigger] all_perms@[pp]@,
                        ) by {
                            if pp == pos {
                                assert(window_at(superperm@, all_perms@[pp]@, off as int));
                            } else {
                                assert(ckb[pp]);
                                lemma_window_extend(
                                    spb,
                                    pv.subrange(i as int, n as int),
                                    all_perms@[pp]@,
                                );
                            }
                        }
                        lemma_count_update(ckb, true_pred(), pos as int, true, 0, np as int);
                        // the appended suffix keeps the length within bounds
                        let cold = count_true(ckb, 0, np as int) as int;
                        assert(count_true(checklist@, 0, np as int) == cold + 1);
                        assert(superperm@.len() == spb.len() + (n - i));
                        assert(n * (cold + 1 - 1) == n * (cold - 1) + n) by (nonlinear_arith);
                        assert forall|m: int|
                            0 <= m < n implies superperm@[m] == #[trigger] idseq(n as nat)[m] by {
                            assert(superperm@[m] == spb[m]);
                        }
                    }
                    matched = true;
                }
                pos = pos + 1;
            }
            proof {
                if !matched && i == 0 {
                    lemma_count_all(ck0, true_pred(), 0, np as int);
                }
            }
            ii = ii + 1;
        }
        proof {
            crate::count::lemma_count_le(checklist@, true_pred(), 0, np as int);
            crate::count::lemma_count_le(ck0, true_pred(), 0, np as int);
        }
        t = t + 1;
    }
    proof {
        crate::count::lemma_count_le(checklist@, true_pred(), 0, np as int);
        assert(count_true(checklist@, 0, np as int) == np);
        lemma_count_true_full(checklist@);
        assert forall|q: Seq<usize>|
            #[trigger] is_perm_of(q, n as nat) implies contains_window(superperm@, q) by {
            let x = choose|x: int| 0 <= x < np && all_perms@[x]@ == q;
            assert(checklist@[x]);
        }
        assert(n + n * (np - 1) == n * np) by (nonlinear_arith);
        assert(seq_starts_with(superperm@, idseq(n as nat)));
    }
    superperm
}

/// The naive strategy as a capability: both operations forwarded to the
/// free functions above.
pub struct Handle;

impl SuperPermHandling for Handle {
    fn create_superperm(&self, n_tokens: usize) -> (r: Vec<usize>) {
        create_superperm(n_tokens)
    }

    fn check_superperm(&self, sequence: &Vec<usize>, n_tokens: usize) -> (r: bool) {
        check_superperm(sequence, n_tokens)
    }
}

} // verus!
