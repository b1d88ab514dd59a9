//! Mapping between index values and permutations of a base sequence.
//!
//! A `PermutationMapper` fixes a base sequence of `n` distinct, nonzero
//! tokens (the permutation of index value `0`) and a mixed-radix system with
//! bases `[n, n-1, ..., 1]`, so that the `n!` index values biject with the
//! permutations of the base sequence.

use vstd::prelude::*;

use crate::perms::{
    count_free, distinct_seq, fact, lemma_find_free_match_unique,
    lemma_fresh_place_ctx, lemma_nth_free_unique, lemma_perm_bases_fact,
    lemma_perm_digits_injective, lemma_perm_from_digits_multiset, lemma_place_step,
    lemma_scan_gives_place, lemma_scan_of_perm, lemma_scan_total, nonzero_seq, nth_free_from,
    perm_bases, perm_from_digits, place_ctx, place_from, scan_from, seq_starts_with, spec_scan,
    spec_value_to_perm, unfilled_pred, zero_seq,
};
use crate::prefix::{
    high_perm, inv_digit, inv_digits, lemma_box_gives_prefix, lemma_digits_are_inversions,
    lemma_extremes_multiset, lemma_prefix_in_box, lemma_rearrangement_facts, low_perm,
    missing_from, missing_of, prefix_ctx,
};
use crate::radix::{
    digit_sum, lemma_codec_round_trip, lemma_codec_round_trip_repr, lemma_dec_from_linear,
    lemma_dec_from_monotone, lemma_prefix_product_bounded, lemma_prod_mono_take, radix_product,
    spec_decode, spec_encode, valid_repr, MixedRadix,
};

verus! {

/// The scan already performed (`done` digits, claimed positions `f`) still
/// leads to the same overall outcome as a fresh scan of `q`.
spec fn scan_resumes(c: Seq<usize>, q: Seq<usize>, f: Seq<bool>, done: Seq<usize>, i: int) -> bool {
    spec_scan(c, q) == match scan_from(c, q, f, i) {
        Option::None => Option::<Seq<usize>>::None,
        Option::Some(rest) => Option::Some(done + rest),
    }
}

/// Maps between index values in `[0, n!)` and the permutations of a fixed
/// base sequence of `n` distinct tokens.
pub struct PermutationMapper {
    /// The base sequence: the permutation of index value `0`.
    pub core_sequence: Vec<usize>,
    /// The mixed-radix system with bases `[n, n-1, ..., 1]`.
    pub mixed_radix_sys: MixedRadix,
}

impl PermutationMapper {
    /// The base sequence the mapper was built around.
    pub open spec fn base(self) -> Seq<usize> {
        self.core_sequence@
    }

    /// The alphabet size.
    pub open spec fn n(self) -> nat {
        self.core_sequence@.len()
    }

    /// A mapper is well formed when its radix system carries the bases
    /// `[n, n-1, ..., 1]` for its distinct, nonzero base sequence, so that
    /// `max_value` is `n!`.
    pub open spec fn wf(self) -> bool {
        &&& self.mixed_radix_sys.wf()
        &&& self.mixed_radix_sys.bases@ == perm_bases(self.n())
        &&& self.mixed_radix_sys.max_value == fact(self.n())
        &&& distinct_seq(self.base())
        &&& nonzero_seq(self.base())
    }

    /// Builds the mapper for a base sequence of distinct, nonzero tokens.
    /// The sequence passed in becomes the permutation of index value `0`.
    pub fn new(sequence: Vec<usize>) -> (r: PermutationMapper)
        requires
            distinct_seq(sequence@),
            nonzero_seq(sequence@),
            fact(sequence@.len()) <= usize::MAX,
        ensures
            r.wf(),
            r.core_sequence == sequence,
    {
        let n = sequence.len();
        let ghost pb = perm_bases(n as nat);
        let mut bases: Vec<usize> = Vec::new();
        let mut b = n;
        while b > 0
            invariant
                0 <= b <= n,
                bases@.len() == n - b,
                forall|j: int| 0 <= j < bases@.len() ==> bases@[j] == n - j,
            decreases b,
        {
            bases.push(b);
            b = b - 1;
        }
        proof {
            assert(bases@ =~= pb);
            lemma_perm_bases_fact(n as nat, 0);
            assert forall|j: int| 0 <= j < pb.len() implies pb[j] >= 1 by {}
            assert forall|i: int|
                0 <= i <= bases@.len() implies radix_product(#[trigger] bases@.take(i))
                <= usize::MAX by {
                lemma_prefix_product_bounded(pb, i);
            }
        }
        let sys = MixedRadix::new(bases);
        proof {
            assert(sys.max_value == fact(n as nat));
        }
        PermutationMapper { core_sequence: sequence, mixed_radix_sys: sys }
    }

    /// Maps an index value to its permutation: the value's mixed-radix
    /// digits say, token by token, how many free slots to skip before
    /// placing. Value `0` gives back the base sequence itself.
    pub fn value_to_perm(&self, value: &usize) -> (r: Vec<usize>)
        requires
            self.wf(),
            *value < self.mixed_radix_sys.max_value,
        ensures
            r@ == spec_value_to_perm(self.base(), *value as nat),
            r@.to_multiset() == self.base().to_multiset(),
            r@.len() == self.n(),
    {
        let n = self.core_sequence.len();
        let ghost c = self.base();
        let repr = self.mixed_radix_sys.encode_value(value);
        let ghost d = repr@;
        proof {
            lemma_fresh_place_ctx(c, d);
        }
        let mut out: Vec<usize> = Vec::new();
        let mut z: usize = 0;
        while z < n
            invariant
                0 <= z <= n,
                out@ =~= zero_seq(z as nat),
            decreases n - z,
        {
            out.push(0);
            z = z + 1;
        }
        proof {
            assert(out@ =~= zero_seq(c.len()));
        }
        let mut i: usize = 0;
        while i < n
            invariant
                0 <= i <= n,
                n == c.len(),
                self.wf(),
                self.base() == c,
                repr@ == d,
                repr@.len() == n,
                out@.len() == n,
                place_ctx(out@, c, d, i as int),
                place_from(out@, c, d, i as int) == perm_from_digits(c, d),
            decreases n - i,
        {
            let ghost s0 = out@;
            let shift = repr[i];
            proof {
                lemma_place_step(s0, c, d, i as int);
            }
            let ghost pos = nth_free_from(s0, 0, shift as int);
            let mut ind: usize = 0;
            // skip to the first free slot
            while out[ind] != 0
                invariant
                    0 <= ind <= pos < n,
                    out@ == s0,
                    out@.len() == n,
                    s0[pos] == 0,
                    count_free(s0, 0, ind as int) == 0,
                decreases pos - ind,
            {
                proof {
                    if ind == pos {
                        assert(false);
                    }
                }
                ind = ind + 1;
            }
            // skip `shift` more free slots, stepping over occupied ones
            let mut k: usize = 0;
            while k < shift
                invariant
                    0 <= k <= shift,
                    0 <= ind <= pos < n,
                    out@ == s0,
                    out@.len() == n,
                    s0[ind as int] == 0,
                    s0[pos] == 0,
                    count_free(s0, 0, ind as int) == k,
                    count_free(s0, 0, pos) == shift,
                decreases shift - k,
            {
                proof {
                    if ind == pos {
                        assert(false);
                    }
                }
                ind = ind + 1;
                while out[ind] != 0
                    invariant
                        0 <= ind <= pos < n,
                        out@ == s0,
                        out@.len() == n,
                        s0[pos] == 0,
                        count_free(s0, 0, ind as int) == k + 1,
                        count_free(s0, 0, pos) == shift,
                        k < shift,
                    decreases pos - ind,
                {
                    proof {
                        if ind == pos {
                            assert(false);
                        }
                    }
                    ind = ind + 1;
                }
                k = k + 1;
            }
            proof {
                lemma_nth_free_unique(s0, 0, shift as int, ind as int);
                assert(ind == pos);
            }
            let token = self.core_sequence[i];
            out.set(ind, token);
            proof {
                assert(out@ == s0.update(pos, c[i as int]));
            }
            i = i + 1;
        }
        proof {
            lemma_perm_from_digits_multiset(c, d);
        }
        out
    }

    /// Maps a permutation back to its index value: the inverse of
    /// `value_to_perm`. `None` reports that the sequence passed in is not a
    /// permutation of the base sequence — wrong length, a duplicate, or a
    /// token outside the alphabet — and then no index value maps to it.
    pub fn perm_to_value(&self, permutation: &Vec<usize>) -> (r: Option<usize>)
        requires
            self.wf(),
        ensures
            r matches Some(v) ==> v < self.mixed_radix_sys.max_value && spec_value_to_perm(
                self.base(),
                v as nat,
            ) == permutation@,
            r is None ==> forall|v: nat|
                v < fact(self.n()) ==> spec_value_to_perm(self.base(), v) != permutation@,
    {
        let n = self.core_sequence.len();
        let ghost c = self.base();
        let ghost q = permutation@;
        proof {
            lemma_perm_bases_fact(c.len(), 0);
        }
        if permutation.len() != n {
            proof {
                assert forall|v: nat| v < fact(c.len()) implies spec_value_to_perm(c, v) != q by {
                    lemma_codec_round_trip(perm_bases(c.len()), v);
                    lemma_perm_from_digits_multiset(c, spec_encode(perm_bases(c.len()), v));
                }
            }
            return None;
        }
        let mut repr: Vec<usize> = Vec::new();
        let mut filled: Vec<bool> = Vec::new();
        let mut z: usize = 0;
        while z < n
            invariant
                0 <= z <= n,
                filled@.len() == z,
                forall|m: int| 0 <= m < z ==> !filled@[m],
            decreases n - z,
        {
            filled.push(false);
            z = z + 1;
        }
        proof {
            assert(filled@ =~= Seq::new(q.len(), |m: int| false));
            if scan_from(c, q, filled@, 0) is Some {
                let rest = scan_from(c, q, filled@, 0)->Some_0;
                assert(Seq::<usize>::empty() + rest =~= rest);
            }
            assert(scan_resumes(c, q, filled@, repr@, 0));
        }
        let mut i: usize = 0;
        while i < n
            invariant
                0 <= i <= n,
                n == c.len(),
                self.wf(),
                self.base() == c,
                permutation@ == q,
                q.len() == n,
                filled@.len() == n,
                repr@.len() == i,
                scan_resumes(c, q, filled@, repr@, i as int),
            decreases n - i,
        {
            let token = self.core_sequence[i];
            let mut shift: usize = 0;
            let mut ind: usize = 0;
            // move to the first unclaimed position
            while ind < n && filled[ind]
                invariant
                    0 <= ind <= n,
                    filled@.len() == n,
                    q.len() == n,
                    permutation@ == q,
                    forall|m: int| 0 <= m < ind ==> filled@[m],
                    shift == 0,
                decreases n - ind,
            {
                ind = ind + 1;
            }
            proof {
                crate::count::lemma_count_none(filled@, unfilled_pred(), 0, ind as int);
            }
            // shift along unclaimed positions until the token is found
            while ind < n && token != permutation[ind]
                invariant
                    0 <= ind <= n,
                    0 <= shift <= ind,
                    filled@.len() == n,
                    q.len() == n,
                    permutation@ == q,
                    ind < n ==> !filled@[ind as int],
                    forall|m: int| 0 <= m < ind ==> filled@[m] || q[m] != token,
                    shift == crate::count::count_range(filled@, unfilled_pred(), 0, ind as int),
                decreases n - ind,
            {
                ind = ind + 1;
                shift = shift + 1;
                let ghost ind_floor = ind as int;
                while ind < n && filled[ind]
                    invariant
                        ind_floor <= ind,
                        0 <= ind <= n,
                        0 <= shift <= ind,
                        filled@.len() == n,
                        q.len() == n,
                        permutation@ == q,
                        forall|m: int| 0 <= m < ind ==> filled@[m] || q[m] != token,
                        shift == crate::count::count_range(filled@, unfilled_pred(), 0, ind as int),
                    decreases n - ind,
                {
                    ind = ind + 1;
                }
            }
            if ind >= n {
                // the token does not occur at any unclaimed position: the
                // sequence is no permutation of the base sequence
                proof {
                    let posx = crate::perms::find_free_match(q, filled@, token, 0);
                    crate::perms::lemma_find_free_match_char(q, filled@, token, 0);
                    if posx < q.len() {
                        assert(filled@[posx] || q[posx] != token);
                        assert(false);
                    }
                    assert(scan_from(c, q, filled@, i as int) is None);
                    assert(spec_scan(c, q) is None);
                    assert forall|v: nat| v < fact(c.len()) implies spec_value_to_perm(c, v)
                        != q by {
                        lemma_codec_round_trip(perm_bases(c.len()), v);
                        lemma_scan_of_perm(c, spec_encode(perm_bases(c.len()), v));
                    }
                }
                return None;
            }
            proof {
                lemma_find_free_match_unique(q, filled@, token, 0, ind as int);
            }
            let ghost f0 = filled@;
            let ghost done0 = repr@;
            repr.push(shift);
            filled.set(ind, true);
            proof {
                let rest_opt = scan_from(c, q, filled@, i + 1);
                assert(scan_from(c, q, f0, i as int) == match rest_opt {
                    Option::None => Option::<Seq<usize>>::None,
                    Option::Some(rest) => Option::Some(seq![shift] + rest),
                });
                if rest_opt is Some {
                    let rest = rest_opt->Some_0;
                    assert(done0 + (seq![shift] + rest) =~= (done0.push(shift)) + rest);
                    assert(repr@ == done0.push(shift));
                }
                assert(scan_resumes(c, q, filled@, repr@, i + 1));
            }
            i = i + 1;
        }
        proof {
            assert(scan_from(c, q, filled@, n as int) == Some(Seq::<usize>::empty()));
            assert(repr@ + Seq::<usize>::empty() =~= repr@);
            assert(spec_scan(c, q) == Some(repr@));
            lemma_scan_gives_place(c, q);
            assert(valid_repr(perm_bases(c.len()), repr@));
        }
        let v = self.mixed_radix_sys.decode_representation(&repr);
        proof {
            lemma_codec_round_trip_repr(perm_bases(c.len()), repr@);
            assert(spec_encode(perm_bases(c.len()), v as nat) == repr@);
            assert(spec_value_to_perm(c, v as nat) == q);
        }
        Some(v)
    }
}

/// A helper fact: every permutation of the base sequence is the image of
/// some index value below `n!`.
pub proof fn lemma_perm_has_value(c: Seq<usize>, q: Seq<usize>)
    requires
        distinct_seq(c),
        nonzero_seq(c),
        c.len() <= usize::MAX,
        q.to_multiset() == c.to_multiset(),
    ensures
        exists|v: nat| v < fact(c.len()) && spec_value_to_perm(c, v) == q,
{
    let pb = perm_bases(c.len());
    lemma_perm_bases_fact(c.len(), 0);
    lemma_scan_total(c, q);
    lemma_scan_gives_place(c, q);
    let ds = spec_scan(c, q)->Some_0;
    lemma_codec_round_trip_repr(pb, ds);
    let v0 = spec_decode(pb, ds);
    assert(v0 < fact(c.len()) && spec_value_to_perm(c, v0) == q);
}

impl PermutationMapper {
    /// Every index value whose permutation starts with the given target, in
    /// increasing value order.
    ///
    /// An empty target is consistent with every value. A target that no
    /// permutation of the base sequence can start with — too long, a
    /// duplicate, or a token outside the alphabet — yields an empty result.
    /// Otherwise the result is found without enumerating permutations: the
    /// consistent values are exactly those whose mixed-radix digits lie,
    /// digit by digit, between the digits of the smallest and the largest
    /// consistent value, so a derived mixed-radix system walks exactly the
    /// digit boxes in between, in increasing value order.
    #[verifier::rlimit(60)]
    pub fn possible_values_for(&self, perm_target: &Vec<usize>) -> (r: Vec<usize>)
        requires
            self.wf(),
        ensures
            forall|x: int|
                0 <= x < r@.len() ==> #[trigger] r@[x] < self.mixed_radix_sys.max_value
                    && seq_starts_with(spec_value_to_perm(self.base(), r@[x] as nat), perm_target@),
            forall|v: nat|
                v < fact(self.n()) && seq_starts_with(spec_value_to_perm(self.base(), v), perm_target@)
                    ==> r@.contains(v as usize),
            forall|x1: int, x2: int| 0 <= x1 < x2 < r@.len() ==> r@[x1] < r@[x2],
    {
        let n = self.core_sequence.len();
        let ghost c = self.base();
        let ghost p = perm_target@;
        let ghost pb = perm_bases(c.len());
        let k = perm_target.len();
        proof {
            lemma_perm_bases_fact(c.len(), 0);
        }

        if k == 0 {
            // every value is consistent with the empty target
            let mut values: Vec<usize> = Vec::new();
            let mut v: usize = 0;
            while v < self.mixed_radix_sys.max_value
                invariant
                    values@.len() == v <= self.mixed_radix_sys.max_value,
                    forall|x: int| 0 <= x < v ==> #[trigger] values@[x] == x,
                decreases self.mixed_radix_sys.max_value - v,
            {
                values.push(v);
                v = v + 1;
            }
            proof {
                assert forall|v2: nat|
                    v2 < fact(self.n()) && seq_starts_with(
                        spec_value_to_perm(self.base(), v2),
                        perm_target@,
                    ) implies values@.contains(v2 as usize) by {
                    assert(values@[v2 as int] == v2 as usize);
                }
            }
            return values;
        }

        // the tokens of the base sequence that the target leaves unused
        let mut leftover: Vec<usize> = Vec::new();
        let mut l: usize = 0;
        while l < n
            invariant
                0 <= l <= n,
                n == c.len(),
                self.core_sequence@ == c,
                perm_target@ == p,
                k == p.len(),
                missing_of(c, p) == leftover@ + missing_from(c, p, l as int),
            decreases n - l,
        {
            let token = self.core_sequence[l];
            let mut found = false;
            let mut m: usize = 0;
            while m < k
                invariant
                    0 <= m <= k,
                    perm_target@ == p,
                    k == p.len(),
                    found == exists|j: int| 0 <= j < m && p[j] == token,
                decreases k - m,
            {
                if perm_target[m] == token {
                    found = true;
                }
                m = m + 1;
            }
            proof {
                assert(found == p.contains(token));
                if found {
                    assert(missing_from(c, p, l as int) == missing_from(c, p, l + 1));
                } else {
                    assert(missing_from(c, p, l as int) =~= seq![token] + missing_from(
                        c,
                        p,
                        l + 1,
                    ));
                    assert(leftover@.push(token) + missing_from(c, p, l + 1) =~= leftover@
                        + missing_from(c, p, l as int));
                }
            }
            if !found {
                leftover.push(token);
            }
            l = l + 1;
        }
        proof {
            assert(missing_from(c, p, n as int) =~= Seq::<usize>::empty());
            assert(leftover@ + missing_from(c, p, n as int) =~= leftover@);
            assert(leftover@ == missing_of(c, p));
        }

        // the smallest consistent permutation: the target, then the missing
        // tokens in base-sequence order
        let mut temp: Vec<usize> = Vec::new();
        let mut m: usize = 0;
        while m < k
            invariant
                0 <= m <= k,
                k == p.len(),
                perm_target@ == p,
                temp@ =~= p.take(m as int),
            decreases k - m,
        {
            temp.push(perm_target[m]);
            m = m + 1;
        }
        let mut m2: usize = 0;
        while m2 < leftover.len()
            invariant
                0 <= m2 <= leftover@.len(),
                k == p.len(),
                perm_target@ == p,
                temp@ =~= p + leftover@.take(m2 as int),
            decreases leftover@.len() - m2,
        {
            proof {
                assert(p.take(p.len() as int) =~= p);
                assert((p + leftover@.take(m2 as int)).push(leftover@[m2 as int]) =~= p
                    + leftover@.take(m2 + 1));
            }
            temp.push(leftover[m2]);
            m2 = m2 + 1;
        }
        proof {
            assert(leftover@.take(leftover@.len() as int) =~= leftover@);
            assert(temp@ =~= low_perm(c, p));
        }

        let min_opt = self.perm_to_value(&temp);
        let vmin = match min_opt {
            Option::Some(v) => v,
            Option::None => {
                // no permutation starts with this target
                let values: Vec<usize> = Vec::new();
                proof {
                    assert forall|v: nat|
                        v < fact(self.n()) && seq_starts_with(
                            spec_value_to_perm(self.base(), v),
                            perm_target@,
                        ) implies values@.contains(v as usize) by {
                        let q = spec_value_to_perm(c, v);
                        lemma_codec_round_trip(pb, v);
                        lemma_perm_from_digits_multiset(c, spec_encode(pb, v));
                        lemma_rearrangement_facts(c, q);
                        assert(prefix_ctx(c, p)) by {
                            assert forall|m3: int, m4: int|
                                0 <= m3 < m4 < p.len() implies p[m3] != p[m4] by {
                                assert(q[m3] == p[m3] && q[m4] == p[m4]);
                            }
                            assert forall|m3: int|
                                0 <= m3 < p.len() implies c.contains(#[trigger] p[m3]) by {
                                assert(q[m3] == p[m3]);
                            }
                        }
                        lemma_extremes_multiset(c, p);
                        lemma_perm_has_value(c, low_perm(c, p));
                        let v0 = choose|v0: nat|
                            v0 < fact(c.len()) && spec_value_to_perm(c, v0) == low_perm(c, p);
                        assert(spec_value_to_perm(c, v0) != temp@);
                        assert(false);
                    }
                }
                return values;
            },
        };
        proof {
            assert(spec_value_to_perm(c, vmin as nat) == low_perm(c, p));
            lemma_codec_round_trip(pb, vmin as nat);
            lemma_perm_from_digits_multiset(c, spec_encode(pb, vmin as nat));
            lemma_rearrangement_facts(c, low_perm(c, p));
            assert(prefix_ctx(c, p)) by {
                let q = low_perm(c, p);
                assert(q.len() == c.len());
                assert(p.len() <= c.len()) by {
                    assert(q =~= p + missing_of(c, p));
                }
                assert forall|m3: int, m4: int| 0 <= m3 < m4 < p.len() implies p[m3] != p[m4] by {
                    assert(q[m3] == p[m3] && q[m4] == p[m4]);
                }
                assert forall|m3: int| 0 <= m3 < p.len() implies c.contains(#[trigger] p[m3]) by {
                    assert(q[m3] == p[m3]);
                }
            }
            lemma_extremes_multiset(c, p);
        }

        // the largest consistent permutation: the target, then the missing
        // tokens in reverse order
        let mut temp2: Vec<usize> = Vec::new();
        let mut m3: usize = 0;
        while m3 < k
            invariant
                0 <= m3 <= k,
                k == p.len(),
                perm_target@ == p,
                temp2@ =~= p.take(m3 as int),
            decreases k - m3,
        {
            temp2.push(perm_target[m3]);
            m3 = m3 + 1;
        }
        let mut m4: usize = 0;
        let lv = leftover.len();
        while m4 < lv
            invariant
                0 <= m4 <= lv,
                lv == leftover@.len(),
                k == p.len(),
                perm_target@ == p,
                leftover@ == missing_of(c, p),
                temp2@ =~= p + leftover@.reverse().take(m4 as int),
            decreases lv - m4,
        {
            proof {
                assert(p.take(p.len() as int) =~= p);
                assert(leftover@.reverse()[m4 as int] == leftover@[lv - 1 - m4]);
                assert((p + leftover@.reverse().take(m4 as int)).push(leftover@[lv - 1 - m4])
                    =~= p + leftover@.reverse().take(m4 + 1));
            }
            temp2.push(leftover[lv - 1 - m4]);
            m4 = m4 + 1;
        }
        proof {
            assert(leftover@.reverse().take(leftover@.reverse().len() as int)
                =~= leftover@.reverse());
            assert(temp2@ =~= high_perm(c, p));
            // the high extreme is a permutation, so it has an index value
            lemma_perm_has_value(c, high_perm(c, p));
        }
        let max_opt = self.perm_to_value(&temp2);
        proof {
            if max_opt is None {
                let v0 = choose|v0: nat|
                    v0 < fact(c.len()) && spec_value_to_perm(c, v0) == high_perm(c, p);
                assert(spec_value_to_perm(c, v0) != temp2@);
                assert(false);
            }
        }
        let vmax = max_opt.unwrap();

        let min_repr = self.mixed_radix_sys.encode_value(&vmin);
        let max_repr = self.mixed_radix_sys.encode_value(&vmax);
        let ghost dmin = min_repr@;
        let ghost dmax = max_repr@;
        proof {
            // the two digit sequences are the inversion counts of the extremes
            lemma_scan_of_perm(c, spec_encode(pb, vmin as nat));
            lemma_digits_are_inversions(c, low_perm(c, p));
            assert(dmin == inv_digits(c, low_perm(c, p)));
            lemma_codec_round_trip(pb, vmax as nat);
            lemma_scan_of_perm(c, spec_encode(pb, vmax as nat));
            lemma_digits_are_inversions(c, high_perm(c, p));
            assert(dmax == inv_digits(c, high_perm(c, p)));
            lemma_prefix_in_box(c, p, high_perm(c, p));
            assert forall|i: int| 0 <= i < n implies dmin[i] <= dmax[i] && dmax[i] < pb[i] by {
                crate::prefix::lemma_inv_digit_bound(c, low_perm(c, p), i);
                crate::prefix::lemma_inv_digit_bound(c, high_perm(c, p), i);
                assert(inv_digit(c, low_perm(c, p), i) <= inv_digit(c, high_perm(c, p), i));
                assert(dmin[i] == inv_digits(c, low_perm(c, p))[i]);
                assert(dmax[i] == inv_digits(c, high_perm(c, p))[i]);
                assert(dmin[i] == inv_digit(c, low_perm(c, p), i));
                assert(dmax[i] == inv_digit(c, high_perm(c, p), i));
                assert(dmax[i] < pb[0 + i]);
            }
        }

        // a derived system walks every digit box between the extremes
        let mut spans: Vec<usize> = Vec::new();
        let mut i: usize = 0;
        while i < n
            invariant
                0 <= i <= n,
                n == c.len(),
                min_repr@ == dmin,
                max_repr@ == dmax,
                min_repr@.len() == n,
                max_repr@.len() == n,
                spans@.len() == i,
                forall|j: int| 0 <= j < n ==> dmin[j] <= dmax[j] && dmax[j] < perm_bases(c.len())[j],
                forall|j: int| 0 <= j < i ==> #[trigger] spans@[j] == dmax[j] + 1 - dmin[j],
            decreases n - i,
        {
            spans.push(max_repr[i] + 1 - min_repr[i]);
            i = i + 1;
        }
        proof {
            assert forall|i2: int|
                0 <= i2 <= spans@.len() implies radix_product(#[trigger] spans@.take(i2))
                <= usize::MAX by {
                lemma_prod_mono_take(spans@, pb, i2);
                assert forall|j: int| 0 <= j < pb.len() implies pb[j] >= 1 by {}
                lemma_prefix_product_bounded(pb, i2);
            }
        }
        let sys = MixedRadix::new(spans);
        let ghost spn = sys.bases@;

        let mut values: Vec<usize> = Vec::new();
        let mut w: usize = 0;
        while w < sys.max_value
            invariant
                0 <= w <= sys.max_value,
                values@.len() == w,
                n == c.len(),
                self.wf(),
                self.base() == c,
                sys.wf(),
                sys.bases@ == spn,
                spn.len() == n,
                min_repr@ == dmin,
                dmin.len() == n,
                forall|j: int| 0 <= j < n ==> dmin[j] <= dmax[j] && dmax[j] < perm_bases(c.len())[j],
                forall|j: int| 0 <= j < n ==> #[trigger] spn[j] == dmax[j] + 1 - dmin[j],
                forall|x: int|
                    0 <= x < w ==> #[trigger] values@[x] == spec_decode(
                        perm_bases(c.len()),
                        digit_sum(dmin, spec_encode(spn, x as nat)),
                    ),
            decreases sys.max_value - w,
        {
            let off = sys.encode_value(&w);
            let mut cur: Vec<usize> = Vec::new();
            let mut i2: usize = 0;
            while i2 < n
                invariant
                    0 <= i2 <= n,
                    n == c.len(),
                    min_repr@ == dmin,
                    dmin.len() == n,
                    off@.len() == n,
                    cur@.len() == i2,
                    forall|j: int| 0 <= j < n ==> dmin[j] <= dmax[j] && dmax[j] < perm_bases(c.len())[j],
                    forall|j: int| 0 <= j < n ==> #[trigger] off@[j] < spn[j],
                    forall|j: int| 0 <= j < n ==> #[trigger] spn[j] == dmax[j] + 1 - dmin[j],
                    forall|j: int| 0 <= j < i2 ==> #[trigger] cur@[j] == dmin[j] + off@[j],
                decreases n - i2,
            {
                proof {
                    assert(off@[i2 as int] < spn[i2 as int]);
                    assert(dmin[i2 as int] + off@[i2 as int] <= dmax[i2 as int]);
                    assert(dmax[i2 as int] < perm_bases(c.len())[i2 as int]);
                }
                cur.push(min_repr[i2] + off[i2]);
                i2 = i2 + 1;
            }
            proof {
                assert(cur@ =~= digit_sum(dmin, off@));
                assert forall|j: int|
                    0 <= j < n implies #[trigger] cur@[j] < perm_bases(c.len())[0 + j] by {
                    assert(cur@[j] == dmin[j] + off@[j] && dmin[j] + off@[j] <= dmax[j]);
                }
                assert(cur@.len() == perm_bases(c.len()).len() - 0);
                assert(valid_repr(perm_bases(c.len()), cur@));
            }
            let val = self.mixed_radix_sys.decode_representation(&cur);
            values.push(val);
            w = w + 1;
        }

        proof {
            lemma_range_values_sound(c, p, dmin, dmax, spn, values@);
            lemma_range_values_complete(c, p, dmin, dmax, spn, values@);
            lemma_range_values_sorted(c, p, dmin, dmax, spn, values@);
            assert forall|x: int|
                0 <= x < values@.len() implies #[trigger] values@[x]
                < self.mixed_radix_sys.max_value && seq_starts_with(
                spec_value_to_perm(self.base(), values@[x] as nat),
                perm_target@,
            ) by {
                assert(values@[x] < fact(c.len()));
            }
        }
        values
    }
}

/// The common shape of a finished range query: the digit box between the two
/// extremes' digits, walked by the derived spans in value order.
spec fn range_query_ctx(
    c: Seq<usize>,
    p: Seq<usize>,
    dmin: Seq<usize>,
    dmax: Seq<usize>,
    spn: Seq<usize>,
    vals: Seq<usize>,
) -> bool {
    &&& prefix_ctx(c, p)
    &&& dmin == inv_digits(c, low_perm(c, p))
    &&& dmax == inv_digits(c, high_perm(c, p))
    &&& spn.len() == c.len()
    &&& forall|j: int| 0 <= j < c.len() ==> #[trigger] spn[j] == dmax[j] + 1 - dmin[j]
    &&& forall|j: int|
        0 <= j < c.len() ==> dmin[j] <= dmax[j] && #[trigger] dmax[j] < perm_bases(c.len())[j]
    &&& vals.len() <= radix_product(spn)
    &&& forall|x: int|
        0 <= x < vals.len() ==> #[trigger] vals[x] == spec_decode(
            perm_bases(c.len()),
            digit_sum(dmin, spec_encode(spn, x as nat)),
        )
}

/// Soundness of the range query: every emitted value is in range and its
/// permutation starts with the prefix.
proof fn lemma_range_values_sound(
    c: Seq<usize>,
    p: Seq<usize>,
    dmin: Seq<usize>,
    dmax: Seq<usize>,
    spn: Seq<usize>,
    vals: Seq<usize>,
)
    requires
        range_query_ctx(c, p, dmin, dmax, spn, vals),
    ensures
        forall|x: int|
            0 <= x < vals.len() ==> #[trigger] vals[x] < fact(c.len()) && seq_starts_with(
                spec_value_to_perm(c, vals[x] as nat),
                p,
            ),
{
    let pb = perm_bases(c.len());
    let n = c.len() as int;
    lemma_perm_bases_fact(c.len(), 0);
    assert forall|x: int|
        0 <= x < vals.len() implies #[trigger] vals[x] < fact(c.len()) && seq_starts_with(
        spec_value_to_perm(c, vals[x] as nat),
        p,
    ) by {
        let off = spec_encode(spn, x as nat);
        lemma_codec_round_trip(spn, x as nat);
        let cur = digit_sum(dmin, off);
        assert forall|j: int|
            0 <= j < n implies #[trigger] cur[j] < pb[0 + j] && dmin[j] <= cur[j] && cur[j]
            <= dmax[j] by {
            assert(off[j] < spn[0 + j]);
        }
        assert(valid_repr(pb, cur));
        lemma_codec_round_trip_repr(pb, cur);
        let v = spec_decode(pb, cur);
        assert(vals[x] == v);
        assert(spec_encode(pb, v as nat) == cur);
        let q = spec_value_to_perm(c, v as nat);
        lemma_perm_from_digits_multiset(c, cur);
        lemma_scan_of_perm(c, cur);
        lemma_digits_are_inversions(c, q);
        assert(inv_digits(c, q) == cur);
        lemma_rearrangement_facts(c, q);
        assert forall|i3: int|
            0 <= i3 < c.len() implies inv_digit(c, low_perm(c, p), i3) <= #[trigger] inv_digit(
            c,
            q,
            i3,
        ) <= inv_digit(c, high_perm(c, p), i3) by {
            crate::prefix::lemma_inv_digit_bound(c, q, i3);
            crate::prefix::lemma_inv_digit_bound(c, low_perm(c, p), i3);
            crate::prefix::lemma_inv_digit_bound(c, high_perm(c, p), i3);
            lemma_extremes_multiset(c, p);
            lemma_rearrangement_facts(c, low_perm(c, p));
            lemma_rearrangement_facts(c, high_perm(c, p));
            assert(inv_digits(c, q)[i3] == cur[i3]);
            assert(inv_digits(c, low_perm(c, p))[i3] == dmin[i3]);
            assert(inv_digits(c, high_perm(c, p))[i3] == dmax[i3]);
            assert(inv_digit(c, q, i3) == cur[i3]);
            assert(inv_digit(c, low_perm(c, p), i3) == dmin[i3]);
            assert(inv_digit(c, high_perm(c, p), i3) == dmax[i3]);
        }
        lemma_box_gives_prefix(c, p, q, p.len() as int);
        assert(seq_starts_with(q, p));
    }
}

/// Completeness of the range query: every consistent value is emitted.
proof fn lemma_range_values_complete(
    c: Seq<usize>,
    p: Seq<usize>,
    dmin: Seq<usize>,
    dmax: Seq<usize>,
    spn: Seq<usize>,
    vals: Seq<usize>,
)
    requires
        range_query_ctx(c, p, dmin, dmax, spn, vals),
        vals.len() == radix_product(spn),
    ensures
        forall|v: nat|
            v < fact(c.len()) && seq_starts_with(spec_value_to_perm(c, v), p) ==> vals.contains(
                v as usize,
            ),
{
    let pb = perm_bases(c.len());
    let n = c.len() as int;
    lemma_perm_bases_fact(c.len(), 0);
    assert forall|v: nat|
        v < fact(c.len()) && seq_starts_with(spec_value_to_perm(c, v), p) implies vals.contains(
        v as usize,
    ) by {
        let q = spec_value_to_perm(c, v);
        lemma_codec_round_trip(pb, v);
        let d = spec_encode(pb, v);
        lemma_perm_from_digits_multiset(c, d);
        lemma_scan_of_perm(c, d);
        lemma_digits_are_inversions(c, q);
        assert(d == inv_digits(c, q));
        lemma_prefix_in_box(c, p, q);
        assert forall|j: int| 0 <= j < n implies dmin[j] <= #[trigger] d[j] <= dmax[j] by {
            crate::prefix::lemma_inv_digit_bound(c, q, j);
            crate::prefix::lemma_inv_digit_bound(c, low_perm(c, p), j);
            crate::prefix::lemma_inv_digit_bound(c, high_perm(c, p), j);
            lemma_extremes_multiset(c, p);
            lemma_rearrangement_facts(c, q);
            lemma_rearrangement_facts(c, low_perm(c, p));
            lemma_rearrangement_facts(c, high_perm(c, p));
            assert(inv_digits(c, q)[j] == d[j]);
            assert(inv_digits(c, low_perm(c, p))[j] == dmin[j]);
            assert(inv_digits(c, high_perm(c, p))[j] == dmax[j]);
            assert(inv_digit(c, low_perm(c, p), j) <= inv_digit(c, q, j) <= inv_digit(
                c,
                high_perm(c, p),
                j,
            ));
        }
        let off = Seq::new(c.len(), |j: int| (d[j] - dmin[j]) as usize);
        assert(valid_repr(spn, off)) by {
            assert forall|j: int| 0 <= j < n implies #[trigger] off[j] < spn[0 + j] by {
                assert(dmin[j] <= d[j] <= dmax[j]);
            }
        }
        lemma_codec_round_trip_repr(spn, off);
        let w0 = spec_decode(spn, off);
        assert(w0 < radix_product(spn));
        assert(digit_sum(dmin, off) =~= d);
        assert(vals[w0 as int] == spec_decode(pb, d));
        assert(vals[w0 as int] == v);
    }
}

/// The range query emits its values in strictly increasing order.
proof fn lemma_range_values_sorted(
    c: Seq<usize>,
    p: Seq<usize>,
    dmin: Seq<usize>,
    dmax: Seq<usize>,
    spn: Seq<usize>,
    vals: Seq<usize>,
)
    requires
        range_query_ctx(c, p, dmin, dmax, spn, vals),
    ensures
        forall|x1: int, x2: int| 0 <= x1 < x2 < vals.len() ==> vals[x1] < vals[x2],
{
    let pb = perm_bases(c.len());
    let n = c.len() as int;
    assert forall|x1: int, x2: int|
        0 <= x1 < x2 < vals.len() implies vals[x1] < vals[x2] by {
        let off1 = spec_encode(spn, x1 as nat);
        let off2 = spec_encode(spn, x2 as nat);
        lemma_codec_round_trip(spn, x1 as nat);
        lemma_codec_round_trip(spn, x2 as nat);
        assert forall|j: int| 0 <= j < n implies spn[j] <= pb[j] by {
            assert(spn[j] == dmax[j] + 1 - dmin[j]);
            assert(dmax[j] < perm_bases(c.len())[j]);
        }
        lemma_dec_from_monotone(spn, pb, off1, off2, 0);
        assert forall|j: int| 0 <= j < n implies dmin[j] + off1[j] <= usize::MAX by {
            assert(off1[j] < spn[0 + j]);
        }
        assert forall|j: int| 0 <= j < n implies dmin[j] + off2[j] <= usize::MAX by {
            assert(off2[j] < spn[0 + j]);
        }
        lemma_dec_from_linear(pb, dmin, off1, 0);
        lemma_dec_from_linear(pb, dmin, off2, 0);
        assert(vals[x1] == spec_decode(pb, dmin) + spec_decode(pb, off1));
        assert(vals[x2] == spec_decode(pb, dmin) + spec_decode(pb, off2));
    }
}


/// Distinct index values map to distinct permutations: the mapping is a
/// bijection over `[0, n!)`.
pub proof fn lemma_value_to_perm_injective(c: Seq<usize>, v1: nat, v2: nat)
    requires
        distinct_seq(c),
        nonzero_seq(c),
        c.len() <= usize::MAX,
        v1 < fact(c.len()),
        v2 < fact(c.len()),
        spec_value_to_perm(c, v1) == spec_value_to_perm(c, v2),
    ensures
        v1 == v2,
{
    let pb = perm_bases(c.len());
    lemma_perm_bases_fact(c.len(), 0);
    lemma_codec_round_trip(pb, v1);
    lemma_codec_round_trip(pb, v2);
    lemma_perm_digits_injective(c, spec_encode(pb, v1), spec_encode(pb, v2));
}

/// Round-trip law of the mapper: for every index value below `n!`, reading
/// the value's permutation back yields exactly that value.
pub fn check_round_trip(mapper: &PermutationMapper, value: usize) -> (b: bool)
    requires
        mapper.wf(),
        value < mapper.mixed_radix_sys.max_value,
    ensures
        b,
{
    let nlen = mapper.core_sequence.len();
    let perm = mapper.value_to_perm(&value);
    let r = mapper.perm_to_value(&perm);
    proof {
        assert(mapper.base().len() == nlen);
        match r {
            Option::None => {
                assert(spec_value_to_perm(mapper.base(), value as nat) != perm@);
            },
            Option::Some(w) => {
                lemma_value_to_perm_injective(mapper.base(), w as nat, value as nat);
            },
        }
    }
    match r {
        Option::Some(w) => w == value,
        Option::None => false,
    }
}

/// Rejection law: a sequence of the wrong length, with a repeated token, or
/// with a token outside the base sequence is the permutation of no index
/// value — so `perm_to_value` reports it with `None`.
pub proof fn lemma_rejection(c: Seq<usize>, q: Seq<usize>)
    requires
        distinct_seq(c),
        nonzero_seq(c),
        c.len() <= usize::MAX,
        q.len() != c.len() || !distinct_seq(q) || exists|m: int|
            0 <= m < q.len() && !c.contains(#[trigger] q[m]),
    ensures
        forall|v: nat| v < fact(c.len()) ==> spec_value_to_perm(c, v) != q,
{
    let pb = perm_bases(c.len());
    lemma_perm_bases_fact(c.len(), 0);
    assert forall|v: nat| v < fact(c.len()) implies spec_value_to_perm(c, v) != q by {
        lemma_codec_round_trip(pb, v);
        lemma_perm_from_digits_multiset(c, spec_encode(pb, v));
        lemma_rearrangement_facts(c, spec_value_to_perm(c, v));
        if spec_value_to_perm(c, v) == q {
            assert(q.len() == c.len());
            assert(distinct_seq(q));
            if exists|m: int| 0 <= m < q.len() && !c.contains(#[trigger] q[m]) {
                let m = choose|m: int| 0 <= m < q.len() && !c.contains(#[trigger] q[m]);
            }
        }
    }
}

} // verus!
