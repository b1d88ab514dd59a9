//! The optimized strategy: never materialize the permutations up front.
//!
//! Both operations work through the permutation mapper: a window or a tail
//! of the sequence is handed to `possible_values_for`, which reports the
//! index values of every permutation consistent with it, and a checklist
//! over the `n!` index values records coverage.

use vstd::prelude::*;

use crate::base::{
    contains_window, copy_range, count_true, covered_upto, idseq, is_perm_of, is_superperm,
    lemma_count_true_full, lemma_idseq, lemma_perm_is_rearrangement, lemma_rearrangement_is_perm,
    lemma_window_extend, make_id_vec, true_pred, window_at, SuperPermHandling,
};
use crate::count::{lemma_count_all, lemma_count_le, lemma_count_none, lemma_count_update};
use crate::mapper::{lemma_perm_has_value, PermutationMapper};
use crate::perms::{fact, lemma_perm_bases_fact, perm_bases, seq_starts_with, spec_value_to_perm};
use crate::radix::lemma_codec_round_trip;

verus! {

/// What an index value stands for over the alphabet `1..=n`.
pub open spec fn value_perm(n: nat, v: nat) -> Seq<usize> {
    spec_value_to_perm(idseq(n), v)
}

/// An index value below `n!` stands for a permutation of the alphabet.
proof fn lemma_value_perm_facts(n: nat, v: nat)
    requires
        n <= usize::MAX,
        v < fact(n),
    ensures
        value_perm(n, v).len() == n,
        is_perm_of(value_perm(n, v), n),
{
    lemma_idseq(n);
    lemma_perm_bases_fact(n, 0);
    lemma_codec_round_trip(perm_bases(n), v);
    crate::perms::lemma_perm_from_digits_multiset(idseq(n), spec_encode_of(n, v));
    lemma_rearrangement_is_perm(value_perm(n, v), n);
}

/// The digits of a value under the permutation bases.
spec fn spec_encode_of(n: nat, v: nat) -> Seq<usize> {
    crate::radix::spec_encode(perm_bases(n), v)
}

/// Every permutation of the alphabet is the image of some index value.
proof fn lemma_value_perm_exists(n: nat, q: Seq<usize>)
    requires
        n <= usize::MAX,
        is_perm_of(q, n),
    ensures
        exists|v: nat| v < fact(n) && value_perm(n, v) == q,
{
    lemma_idseq(n);
    lemma_perm_is_rearrangement(q, n);
    lemma_perm_has_value(idseq(n), q);
    let v = choose|v: nat|
        v < fact(idseq(n).len()) && spec_value_to_perm(idseq(n), v) == q;
    assert(v < fact(n) && value_perm(n, v) == q);
}

/// The optimized strategy as a capability.
pub struct Handle;

impl SuperPermHandling for Handle {
    fn check_superperm(&self, sequence: &Vec<usize>, n_tokens: usize) -> (r: bool) {
        let n = n_tokens;
        let ghost sv = sequence@;
        if n == 0 {
            proof {
                assert forall|q: Seq<usize>|
                    #[trigger] is_perm_of(q, 0) implies contains_window(sv, q) by {
                    assert(q =~= Seq::<usize>::empty());
                    assert(window_at(sv, q, 0));
                }
            }
            return true;
        }
        proof {
            lemma_idseq(n as nat);
        }
        let idv = make_id_vec(n);
        let mapper = PermutationMapper::new(idv);
        let mv = mapper.mixed_radix_sys.max_value;
        let sl = sequence.len();
        let ghost wbound: int = if n <= sl {
            sl - n + 1
        } else {
            0
        };
        let mut checklist: Vec<bool> = Vec::new();
        let mut z: usize = 0;
        while z < mv
            invariant
                0 <= z <= mv,
                checklist@.len() == z,
                forall|j: int| 0 <= j < z ==> !checklist@[j],
            decreases mv - z,
        {
            checklist.push(false);
            z = z + 1;
        }
        proof {
            assert forall|v: int|
                0 <= v < mv implies checklist@[v] == covered_upto(
                sv,
                value_perm(n as nat, v as nat),
                0,
            ) by {
                if covered_upto(sv, value_perm(n as nat, v as nat), 0) {
                    let o = choose|o: int|
                        o < 0 && #[trigger] window_at(sv, value_perm(n as nat, v as nat), o);
                }
            }
        }
        if n <= sl {
            let mut i: usize = 0;
            while i <= sl - n
                invariant
                    0 <= i <= sl - n + 1,
                    1 <= n <= sl,
                    sl == sv.len(),
                    sequence@ == sv,
                    mapper.wf(),
                    mapper.base() == idseq(n as nat),
                    mapper.n() == n,
                    mv == mapper.mixed_radix_sys.max_value == fact(n as nat),
                    checklist@.len() == mv,
                    forall|v: int|
                        0 <= v < mv ==> checklist@[v] == covered_upto(
                            sv,
                            value_perm(n as nat, v as nat),
                            i as int,
                        ),
                decreases sl - i,
            {
                let window = copy_range(sequence, i, i + n);
                let values = mapper.possible_values_for(&window);
                let ghost ck0 = checklist@;
                let mut x: usize = 0;
                while x < values.len()
                    invariant
                        0 <= x <= values@.len(),
                        checklist@.len() == mv,
                        ck0.len() == mv,
                        mv == fact(n as nat),
                        forall|y: int|
                            0 <= y < values@.len() ==> #[trigger] values@[y] < mv,
                        forall|v: int| 0 <= v < mv && ck0[v] ==> checklist@[v],
                        forall|y: int| 0 <= y < x ==> checklist@[#[trigger] values@[y] as int],
                        forall|v: int|
                            0 <= v < mv && checklist@[v] ==> ck0[v] || values@.contains(
                                v as usize,
                            ),
                    decreases values@.len() - x,
                {
                    let ghost ckb = checklist@;
                    let v = values[x];
                    checklist.set(v, true);
                    proof {
                        assert(values@.contains(v));
                        assert forall|y: int|
                            0 <= y < x + 1 implies checklist@[#[trigger] values@[y] as int] by {
                            if y < x {
                                assert(ckb[values@[y] as int]);
                            }
                        }
                    }
                    x = x + 1;
                }
                proof {
                    assert forall|v: int|
                        0 <= v < mv implies checklist@[v] == (ck0[v] || values@.contains(
                        v as usize,
                    )) by {
                        if values@.contains(v as usize) {
                            let y = choose|y: int|
                                0 <= y < values@.len() && values@[y] == v as usize;
                            assert(checklist@[values@[y] as int]);
                        }
                    }
                }
                proof {
                    let nn = n as nat;
                    assert forall|v: int|
                        0 <= v < mv implies checklist@[v] == covered_upto(
                        sv,
                        value_perm(nn, v as nat),
                        i + 1,
                    ) by {
                        lemma_value_perm_facts(nn, v as nat);
                        let pv = value_perm(nn, v as nat);
                        // membership in the reported values is exactly a
                        // window match at this offset
                        assert(values@.contains(v as usize) == window_at(sv, pv, i as int)) by {
                            if values@.contains(v as usize) {
                                let y = choose|y: int|
                                    0 <= y < values@.len() && values@[y] == v as usize;
                                assert(seq_starts_with(
                                    spec_value_to_perm(mapper.base(), values@[y] as nat),
                                    window@,
                                ));
                                assert forall|m: int|
                                    0 <= m < pv.len() implies sv[i + m] == #[trigger] pv[m] by {
                                    assert(pv[m] == window@[m]);
                                    assert(window@[m] == sv[i + m]);
                                }
                            }
                            if window_at(sv, pv, i as int) {
                                assert(seq_starts_with(pv, window@)) by {
                                    assert forall|m: int|
                                        0 <= m < window@.len() implies pv[m]
                                        == #[trigger] window@[m] by {
                                        assert(window@[m] == sv[i + m]);
                                        assert(sv[i + m] == pv[m]);
                                    }
                                }
                                assert(values@.contains(v as usize));
                            }
                        }
                        if checklist@[v] {
                            if ck0[v] {
                                let o = choose|o: int|
                                    o < i && #[trigger] window_at(sv, pv, o);
                                assert(o < i + 1 && window_at(sv, pv, o));
                            } else {
                                assert(values@.contains(v as usize));
                                assert(window_at(sv, pv, i as int));
                            }
                        } else {
                            assert(!ck0[v]);
                            assert(!values@.contains(v as usize));
                            if covered_upto(sv, pv, i + 1) {
                                let o = choose|o: int| o < i + 1 && #[trigger] window_at(sv, pv, o);
                                if o < i {
                                    assert(covered_upto(sv, pv, i as int));
                                    assert(ck0[v]);
                                } else {
                                    assert(window_at(sv, pv, i as int));
                                    assert(values@.contains(v as usize));
                                }
                                assert(false);
                            }
                        }
                    }
                }
                i = i + 1;
            }
        }
        let mut v: usize = 0;
        while v < mv
            invariant
                0 <= v <= mv,
                n == n_tokens,
                1 <= n,
                sl == sv.len(),
                sequence@ == sv,
                wbound == (if n <= sl {
                    sl - n + 1
                } else {
                    0
                }),
                mv == fact(n as nat),
                checklist@.len() == mv,
                forall|vv: int|
                    0 <= vv < mv ==> checklist@[vv] == covered_upto(
                        sv,
                        value_perm(n as nat, vv as nat),
                        wbound,
                    ),
                forall|vv: int| 0 <= vv < v ==> checklist@[vv],
            decreases mv - v,
        {
            if !checklist[v] {
                proof {
                    let nn = n as nat;
                    lemma_value_perm_facts(nn, v as nat);
                    let pv = value_perm(nn, v as nat);
                    if contains_window(sv, pv) {
                        let o = choose|o: int| #[trigger] window_at(sv, pv, o);
                        assert(o + n <= sl);
                        assert(o < wbound && window_at(sv, pv, o));
                        assert(covered_upto(sv, pv, wbound));
                        assert(false);
                    }
                    assert(!is_superperm(sv, nn));
                }
                return false;
            }
            v = v + 1;
        }
        proof {
            let nn = n as nat;
            assert forall|q: Seq<usize>|
                #[trigger] is_perm_of(q, nn) implies contains_window(sv, q) by {
                lemma_value_perm_exists(nn, q);
                let v0 = choose|v0: nat| v0 < fact(nn) && value_perm(nn, v0) == q;
                assert(checklist@[v0 as int]);
                let o = choose|o: int| o < wbound && #[trigger] window_at(sv, value_perm(nn, v0), o);
            }
        }
        true
    }

    fn create_superperm(&self, n_tokens: usize) -> (r: Vec<usize>) {
        let n = n_tokens;
        if n == 0 {
            let empty: Vec<usize> = Vec::new();
            proof {
                assert forall|q: Seq<usize>|
                    #[trigger] is_perm_of(q, 0) implies contains_window(empty@, q) by {
                    assert(q =~= Seq::<usize>::empty());
                    assert(window_at(empty@, q, 0));
                }
                assert(0 * fact(0) == 0) by (nonlinear_arith);
            }
            return empty;
        }
        proof {
            lemma_idseq(n as nat);
        }
        let mapper = PermutationMapper::new(make_id_vec(n));
        let mv = mapper.mixed_radix_sys.max_value;
        let mut superperm = make_id_vec(n);
        let mut checklist: Vec<bool> = Vec::new();
        let mut z: usize = 0;
        while z < mv
            invariant
                0 <= z <= mv,
                checklist@.len() == z,
                forall|j: int| 0 <= j < z ==> !checklist@[j],
            decreases mv - z,
        {
            checklist.push(false);
            z = z + 1;
        }
        proof {
            lemma_count_none(checklist@, true_pred(), 0, mv as int);
        }
        let v0_opt = mapper.perm_to_value(&superperm);
        proof {
            if v0_opt is None {
                lemma_perm_has_value(idseq(n as nat), idseq(n as nat));
                let vx = choose|vx: nat|
                    vx < fact(n as nat) && spec_value_to_perm(idseq(n as nat), vx) == idseq(
                        n as nat,
                    );
                assert(false);
            }
        }
        let v0 = v0_opt.unwrap();
        let ghost ckpre = checklist@;
        checklist.set(v0, true);
        proof {
            assert(window_at(superperm@, value_perm(n as nat, v0 as nat), 0)) by {
                assert(value_perm(n as nat, v0 as nat) == superperm@);
            }
            lemma_count_update(ckpre, true_pred(), v0 as int, true, 0, mv as int);
            assert(count_true(checklist@, 0, mv as int) == 1);
            assert(n * (1 - 1) == 0) by (nonlinear_arith);
        }
        let mut t: usize = 0;
        while t + 1 < mv
            invariant
                0 <= t,
                t + 1 <= mv,
                1 <= n,
                1 <= mv == fact(n as nat),
                mapper.wf(),
                mapper.base() == idseq(n as nat),
                mapper.n() == n,
                mv == mapper.mixed_radix_sys.max_value,
                checklist@.len() == mv,
                superperm@.len() >= n,
                forall|m: int| 0 <= m < n ==> superperm@[m] == #[trigger] idseq(n as nat)[m],
                forall|v: int|
                    0 <= v < mv && checklist@[v] ==> contains_window(
                        superperm@,
                        value_perm(n as nat, v as nat),
                    ),
                count_true(checklist@, 0, mv as int) >= 1,
                n + count_true(checklist@, 0, mv as int) - 1 <= superperm@.len(),
                superperm@.len() <= n + n * (count_true(checklist@, 0, mv as int) - 1),
                count_true(checklist@, 0, mv as int) >= t + 1 || count_true(
                    checklist@,
                    0,
                    mv as int,
                ) == mv,
            decreases mv - t,
        {
            let ghost ck0 = checklist@;
            let ghost sp0 = superperm@;
            let mut matched = false;
            let mut ii: usize = 0;
            while ii < n - 1 && !matched
                invariant
                    0 <= ii <= n - 1,
                    1 <= n,
                    1 <= mv == fact(n as nat),
                    mapper.wf(),
                    mapper.base() == idseq(n as nat),
                    mapper.n() == n,
                    mv == mapper.mixed_radix_sys.max_value,
                    checklist@.len() == mv,
                    superperm@.len() >= n,
                    forall|m: int| 0 <= m < n ==> superperm@[m] == #[trigger] idseq(n as nat)[m],
                    forall|v: int|
                        0 <= v < mv && checklist@[v] ==> contains_window(
                            superperm@,
                            value_perm(n as nat, v as nat),
                        ),
                    count_true(checklist@, 0, mv as int) >= 1,
                    n + count_true(checklist@, 0, mv as int) - 1 <= superperm@.len(),
                    superperm@.len() <= n + n * (count_true(checklist@, 0, mv as int) - 1),
                    !matched ==> checklist@ == ck0 && superperm@ == sp0,
                    matched ==> count_true(checklist@, 0, mv as int) == count_true(
                        ck0,
                        0,
                        mv as int,
                    ) + 1,
                decreases n - 1 - ii,
            {
                let i = n - 1 - ii;
                let sl = superperm.len();
                let trailing = copy_range(&superperm, sl - i, sl);
                let values = mapper.possible_values_for(&trailing);
                let mut x: usize = 0;
                while x < values.len() && !matched
                    invariant
                        0 <= x <= values@.len(),
                        1 <= i < n,
                        1 <= n,
                        1 <= mv == fact(n as nat),
                        mapper.wf(),
                        mapper.base() == idseq(n as nat),
                        mapper.n() == n,
                        mv == mapper.mixed_radix_sys.max_value,
                        checklist@.len() == mv,
                        superperm@.len() >= n,
                        trailing@.len() == i,
                        forall|m: int| 0 <= m < i ==> #[trigger] trailing@[m] == sp0[sp0.len() - i + m],
                        forall|y: int| 0 <= y < values@.len() ==> #[trigger] values@[y] < mv,
                        forall|y: int|
                            0 <= y < values@.len() ==> seq_starts_with(
                                spec_value_to_perm(idseq(n as nat), #[trigger] values@[y] as nat),
                                trailing@,
                            ),
                        forall|m: int|
                            0 <= m < n ==> superperm@[m] == #[trigger] idseq(n as nat)[m],
                        forall|v: int|
                            0 <= v < mv && checklist@[v] ==> contains_window(
                                superperm@,
                                value_perm(n as nat, v as nat),
                            ),
                        count_true(checklist@, 0, mv as int) >= 1,
                        n + count_true(checklist@, 0, mv as int) - 1 <= superperm@.len(),
                        superperm@.len() <= n + n * (count_true(checklist@, 0, mv as int) - 1),
                        !matched ==> checklist@ == ck0 && superperm@ == sp0,
                        matched ==> count_true(checklist@, 0, mv as int) == count_true(
                            ck0,
                            0,
                            mv as int,
                        ) + 1,
                    decreases values@.len() - x,
                {
                    let v = values[x];
                    if !checklist[v] {
                        let ghost ckb = checklist@;
                        let ghost spb = superperm@;
                        checklist.set(v, true);
                        let perm = mapper.value_to_perm(&v);
                        proof {
                            lemma_value_perm_facts(n as nat, v as nat);
                        }
                        let mut m2: usize = i;
                        while m2 < perm.len()
                            invariant
                                i <= m2 <= perm@.len(),
                                perm@ == value_perm(n as nat, v as nat),
                                perm@.len() == n,
                                i < n,
                                superperm@ =~= spb + perm@.subrange(i as int, m2 as int),
                            decreases perm@.len() - m2,
                        {
                            superperm.push(perm[m2]);
                            m2 = m2 + 1;
                        }
                        proof {
                            let nn = n as nat;
                            let pv = value_perm(nn, v as nat);
                            assert(superperm@ =~= spb + pv.subrange(i as int, n as int));
                            let off = spb.len() - i;
                            assert(window_at(superperm@, pv, off as int)) by {
                                assert forall|mm: int|
                                    0 <= mm < pv.len() implies superperm@[off + mm]
                                    == #[trigger] pv[mm] by {
                                    if mm < i {
                                        assert(superperm@[off + mm] == spb[spb.len() - i + mm]);
                                        assert(seq_starts_with(pv, trailing@));
                                        assert(pv[mm] == trailing@[mm]);
                                        assert(trailing@[mm] == spb[spb.len() - i + mm]);
                                    } else {
                                        assert(superperm@[off + mm] == pv.subrange(
                                            i as int,
                                            n as int,
                                        )[mm - i]);
                                    }
                                }
                            }
                            assert forall|vv: int|
                                0 <= vv < mv && checklist@[vv] implies contains_window(
                                superperm@,
                                value_perm(nn, vv as nat),
                            ) by {
                                if vv == v {
                                    assert(window_at(superperm@, value_perm(nn, vv as nat), off as int));
                                } else {
                                    assert(ckb[vv]);
                                    lemma_window_extend(
                                        spb,
                                        pv.subrange(i as int, n as int),
                                        value_perm(nn, vv as nat),
                                    );
                                }
                            }
                            lemma_count_update(ckb, true_pred(), v as int, true, 0, mv as int);
                            // the appended suffix keeps the length within bounds
                            let cold = count_true(ckb, 0, mv as int) as int;
                            assert(count_true(checklist@, 0, mv as int) == cold + 1);
                            assert(superperm@.len() == spb.len() + (n - i));
                            assert(n * (cold + 1 - 1) == n * (cold - 1) + n) by (nonlinear_arith);
                            assert forall|mm2: int|
                                0 <= mm2 < n implies superperm@[mm2] == #[trigger] idseq(
                                n as nat,
                            )[mm2] by {
                                assert(superperm@[mm2] == spb[mm2]);
                            }
                        }
                        matched = true;
                    }
                    x = x + 1;
                }
                ii = ii + 1;
            }
            if !matched {
                // no tail of any width extends to an unchecked permutation:
                // append the lowest-valued unchecked permutation whole
                let mut v: usize = 0;
                while v < mv && checklist[v]
                    invariant
                        0 <= v <= mv,
                        checklist@.len() == mv,
                        forall|vv: int| 0 <= vv < v ==> checklist@[vv],
                    decreases mv - v,
                {
                    v = v + 1;
                }
                if v < mv {
                    let ghost ckb = checklist@;
                    let ghost spb = superperm@;
                    checklist.set(v, true);
                    let perm = mapper.value_to_perm(&v);
                    proof {
                        lemma_value_perm_facts(n as nat, v as nat);
                    }
                    let mut m2: usize = 0;
                    while m2 < perm.len()
                        invariant
                            0 <= m2 <= perm@.len(),
                            perm@ == value_perm(n as nat, v as nat),
                            superperm@ =~= spb + perm@.subrange(0, m2 as int),
                        decreases perm@.len() - m2,
                    {
                        superperm.push(perm[m2]);
                        m2 = m2 + 1;
                    }
                    proof {
                        let nn = n as nat;
                        let pv = value_perm(nn, v as nat);
                        assert(superperm@ =~= spb + pv.subrange(0, n as int));
                        assert(pv.subrange(0, n as int) =~= pv);
                        let off = spb.len();
                        assert(window_at(superperm@, pv, off as int)) by {
                            assert forall|mm: int|
                                0 <= mm < pv.len() implies superperm@[off + mm]
                                == #[trigger] pv[mm] by {
                                assert(superperm@[off + mm] == pv.subrange(0, n as int)[mm]);
                            }
                        }
                        assert forall|vv: int|
                            0 <= vv < mv && checklist@[vv] implies contains_window(
                            superperm@,
                            value_perm(nn, vv as nat),
                        ) by {
                            if vv == v {
                                assert(window_at(superperm@, value_perm(nn, vv as nat), off as int));
                            } else {
                                assert(ckb[vv]);
                                lemma_window_extend(spb, pv, value_perm(nn, vv as nat));
                            }
                        }
                        lemma_count_update(ckb, true_pred(), v as int, true, 0, mv as int);
                        // a whole permutation keeps the length within bounds
                        let cold = count_true(ckb, 0, mv as int) as int;
                        assert(count_true(checklist@, 0, mv as int) == cold + 1);
                        assert(superperm@.len() == spb.len() + n);
                        assert(n * (cold + 1 - 1) == n * (cold - 1) + n) by (nonlinear_arith);
                        assert forall|mm2: int|
                            0 <= mm2 < n implies superperm@[mm2] == #[trigger] idseq(
                            n as nat,
                        )[mm2] by {
                            assert(superperm@[mm2] == spb[mm2]);
                        }
                    }
                } else {
                    proof {
                        lemma_count_all(checklist@, true_pred(), 0, mv as int);
                    }
                }
            }
            proof {
                lemma_count_le(checklist@, true_pred(), 0, mv as int);
                lemma_count_le(ck0, true_pred(), 0, mv as int);
            }
            t = t + 1;
        }
        proof {
            let nn = n as nat;
            lemma_count_le(checklist@, true_pred(), 0, mv as int);
            assert(count_true(checklist@, 0, mv as int) == mv);
            lemma_count_true_full(checklist@);
            assert forall|q: Seq<usize>|
                #[trigger] is_perm_of(q, nn) implies contains_window(superperm@, q) by {
                lemma_value_perm_exists(nn, q);
                let v1 = choose|v1: nat| v1 < fact(nn) && value_perm(nn, v1) == q;
                assert(checklist@[v1 as int]);
            }
            assert(n + n * (mv - 1) == n * mv) by (nonlinear_arith);
            assert(seq_starts_with(superperm@, idseq(nn)));
        }
        superperm
    }
}

} // verus!
