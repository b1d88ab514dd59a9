//! Mixed-radix codec: encodes an integer into a positional representation
//! where every position has its own base, and decodes it back.
//!
//! Bases are given least-significant position first. A system with bases
//! `[b_0, ..., b_{k-1}]` represents exactly the values `0..max_value` where
//! `max_value` is the product of all bases; the representation of `v` is the
//! digit sequence `[d_0, ..., d_{k-1}]` with `0 <= d_i < b_i` and
//! `v == sum(d_i * b_0 * ... * b_{i-1})`.

use vstd::prelude::*;

verus! {

/// Product of the bases from position `i` on: how many distinct digit
/// suffixes the positions `i..` can hold.
pub open spec fn prod_from(bases: Seq<usize>, i: int) -> nat
    decreases bases.len() - i,
{
    if i < 0 || i >= bases.len() {
        1
    } else {
        (bases[i] * prod_from(bases, i + 1)) as nat
    }
}

/// The number of values representable by the system: the product of all bases.
pub open spec fn radix_product(bases: Seq<usize>) -> nat {
    prod_from(bases, 0)
}

/// Digits of `v` for the positions `i..`, least-significant first.
pub open spec fn enc_from(bases: Seq<usize>, i: int, v: nat) -> Seq<usize>
    decreases bases.len() - i,
{
    if i < 0 || i >= bases.len() {
        Seq::empty()
    } else {
        seq![(v % (bases[i] as nat)) as usize] + enc_from(bases, i + 1, v / (bases[i] as nat))
    }
}

/// The representation of `v` in the system: one digit per base.
pub open spec fn spec_encode(bases: Seq<usize>, v: nat) -> Seq<usize> {
    enc_from(bases, 0, v)
}

/// Value of the digit sequence `digits` read against the positions `i..`
/// (`digits[0]` is the digit of position `i`).
pub open spec fn dec_from(bases: Seq<usize>, i: int, digits: Seq<usize>) -> nat
    decreases bases.len() - i,
{
    if i < 0 || i >= bases.len() || digits.len() == 0 {
        0
    } else {
        (digits[0] + bases[i] * dec_from(bases, i + 1, digits.drop_first())) as nat
    }
}

/// The value a full representation stands for.
pub open spec fn spec_decode(bases: Seq<usize>, digits: Seq<usize>) -> nat {
    dec_from(bases, 0, digits)
}

/// `digits` is a representation for the positions `i..`: right length, and
/// every digit below its base.
pub open spec fn valid_from(bases: Seq<usize>, i: int, digits: Seq<usize>) -> bool {
    &&& digits.len() == bases.len() - i
    &&& forall|j: int| 0 <= j < digits.len() ==> digits[j] < bases[i + j]
}

/// `digits` is a representation of the whole system.
pub open spec fn valid_repr(bases: Seq<usize>, digits: Seq<usize>) -> bool {
    valid_from(bases, 0, digits)
}

/// A value below the suffix product has a valid digit suffix, and each
/// encoding step stays below the remaining product.
proof fn lemma_enc_from_valid(bases: Seq<usize>, i: int, v: nat)
    requires
        0 <= i <= bases.len(),
        v < prod_from(bases, i),
    ensures
        valid_from(bases, i, enc_from(bases, i, v)),
    decreases bases.len() - i,
{
    if i < bases.len() {
        let b = bases[i] as nat;
        assert(b * prod_from(bases, i + 1) == prod_from(bases, i));
        assert(b > 0 && prod_from(bases, i + 1) > 0) by (nonlinear_arith)
            requires
                v < b * prod_from(bases, i + 1),
        ;
        vstd::arithmetic::div_mod::lemma_mod_bound(v as int, b as int);
        assert(v / b < prod_from(bases, i + 1)) by (nonlinear_arith)
            requires
                b > 0,
                v < b * prod_from(bases, i + 1),
        ;
        lemma_enc_from_valid(bases, i + 1, v / b);
    }
}

/// Decoding the encoding of a value gives the value back, position suffix
/// by position suffix.
proof fn lemma_dec_enc_from(bases: Seq<usize>, i: int, v: nat)
    requires
        0 <= i <= bases.len(),
        v < prod_from(bases, i),
    ensures
        dec_from(bases, i, enc_from(bases, i, v)) == v,
    decreases bases.len() - i,
{
    if i >= bases.len() {
        assert(v == 0);
    } else {
        let b = bases[i] as nat;
        assert(b * prod_from(bases, i + 1) == prod_from(bases, i));
        assert(b > 0 && prod_from(bases, i + 1) > 0) by (nonlinear_arith)
            requires
                v < b * prod_from(bases, i + 1),
        ;
        assert(v / b < prod_from(bases, i + 1)) by (nonlinear_arith)
            requires
                b > 0,
                v < b * prod_from(bases, i + 1),
        ;
        lemma_dec_enc_from(bases, i + 1, v / b);
        let e = enc_from(bases, i, v);
        assert(e.drop_first() =~= enc_from(bases, i + 1, v / b));
        vstd::arithmetic::div_mod::lemma_fundamental_div_mod(v as int, b as int);
        vstd::arithmetic::div_mod::lemma_mod_bound(v as int, b as int);
    }
}

/// Encoding the value of a valid representation gives the representation back.
proof fn lemma_enc_dec_from(bases: Seq<usize>, i: int, digits: Seq<usize>)
    requires
        0 <= i <= bases.len(),
        valid_from(bases, i, digits),
    ensures
        enc_from(bases, i, dec_from(bases, i, digits)) =~= digits,
    decreases bases.len() - i,
{
    if i < bases.len() {
        let b = bases[i] as int;
        let rest = dec_from(bases, i + 1, digits.drop_first()) as int;
        let d0 = digits[0] as int;
        assert(valid_from(bases, i + 1, digits.drop_first()));
        lemma_enc_dec_from(bases, i + 1, digits.drop_first());
        lemma_dec_from_bound(bases, i + 1, digits.drop_first());
        let v = dec_from(bases, i, digits) as int;
        assert(d0 < b) by {
            assert(digits[0] < bases[i + 0]);
        }
        assert(v == d0 + b * rest);
        vstd::arithmetic::div_mod::lemma_fundamental_div_mod_converse_mod(v, b, rest, d0);
        vstd::arithmetic::div_mod::lemma_fundamental_div_mod_converse_div(v, b, rest, d0);
        assert(enc_from(bases, i, v as nat)[0] == digits[0]);
    }
}

/// A valid representation decodes to a value below the suffix product.
proof fn lemma_dec_from_bound(bases: Seq<usize>, i: int, digits: Seq<usize>)
    requires
        0 <= i <= bases.len(),
        valid_from(bases, i, digits),
    ensures
        dec_from(bases, i, digits) < prod_from(bases, i),
    decreases bases.len() - i,
{
    if i < bases.len() {
        let b = bases[i] as int;
        let rest = dec_from(bases, i + 1, digits.drop_first()) as int;
        assert(valid_from(bases, i + 1, digits.drop_first()));
        lemma_dec_from_bound(bases, i + 1, digits.drop_first());
        assert(digits[0] + b * rest < b * prod_from(bases, i + 1)) by (nonlinear_arith)
            requires
                0 <= digits[0] < b,
                0 <= rest,
                rest < prod_from(bases, i + 1),
        ;
    }
}

/// Round-trip law of the codec: for every value `v` below the product of the
/// bases, decoding the encoding of `v` yields `v` again.
pub proof fn lemma_codec_round_trip(bases: Seq<usize>, v: nat)
    requires
        v < radix_product(bases),
    ensures
        spec_decode(bases, spec_encode(bases, v)) == v,
        valid_repr(bases, spec_encode(bases, v)),
{
    lemma_dec_enc_from(bases, 0, v);
    lemma_enc_from_valid(bases, 0, v);
}

/// Inverse round trip: a valid representation is the encoding of its value,
/// so distinct representations stand for distinct values.
pub proof fn lemma_codec_round_trip_repr(bases: Seq<usize>, digits: Seq<usize>)
    requires
        valid_repr(bases, digits),
    ensures
        spec_encode(bases, spec_decode(bases, digits)) == digits,
        spec_decode(bases, digits) < radix_product(bases),
{
    lemma_enc_dec_from(bases, 0, digits);
    lemma_dec_from_bound(bases, 0, digits);
}

/// A system of mixed-radix bases, least-significant position first.
pub struct MixedRadix {
    /// The base of each position of this system.
    pub bases: Vec<usize>,
    /// The number of representable values: the first value with no
    /// representation. Zero when some base is zero (an empty number space).
    pub max_value: usize,
}

impl MixedRadix {
    /// The stored maximum agrees with the bases.
    pub open spec fn wf(self) -> bool {
        self.max_value == radix_product(self.bases@)
    }

    /// Builds the system for the given bases and records how many values it
    /// can represent. The running products are formed front to back, so every
    /// prefix product must fit in `usize`.
    pub fn new(bases: Vec<usize>) -> (r: MixedRadix)
        requires
            forall|i: int|
                0 <= i <= bases@.len() ==> radix_product(#[trigger] bases@.take(i)) <= usize::MAX,
        ensures
            r.bases == bases,
            r.wf(),
    {
        let ghost all = bases@;
        let mut max: usize = 1;
        let mut i: usize = 0;
        proof {
            assert(all.take(0) =~= Seq::<usize>::empty());
        }
        while i < bases.len()
            invariant
                0 <= i <= bases@.len(),
                bases@ == all,
                max == radix_product(all.take(i as int)),
                forall|k: int|
                    0 <= k <= all.len() ==> radix_product(#[trigger] all.take(k)) <= usize::MAX,
            decreases bases@.len() - i,
        {
            proof {
                lemma_take_product_step(all, i as int);
            }
            max = max * bases[i];
            i = i + 1;
        }
        proof {
            assert(all.take(all.len() as int) =~= all);
        }
        MixedRadix { bases, max_value: max }
    }

    /// Writes `val` in this system: digit `i` is what remains modulo base `i`
    /// after dividing away the earlier positions, least-significant first.
    pub fn encode_value(&self, val: &usize) -> (r: Vec<usize>)
        requires
            self.wf(),
            *val < self.max_value,
        ensures
            r@ == spec_encode(self.bases@, *val as nat),
            valid_repr(self.bases@, r@),
    {
        let ghost bs = self.bases@;
        let n = self.bases.len();
        let mut r: Vec<usize> = Vec::new();
        let mut carry: usize = *val;
        let mut i: usize = 0;
        while i < n
            invariant
                0 <= i <= n,
                n == bs.len(),
                self.bases@ == bs,
                self.wf(),
                carry < prod_from(bs, i as int),
                enc_from(bs, 0, *val as nat) =~= r@ + enc_from(bs, i as int, carry as nat),
                r@.len() == i,
            decreases n - i,
        {
            let ghost pre = r@;
            let ghost c0 = carry as nat;
            let b = self.bases[i];
            proof {
                assert(bs[i as int] * prod_from(bs, i + 1) == prod_from(bs, i as int));
                assert(b > 0 && prod_from(bs, i + 1) > 0) by (nonlinear_arith)
                    requires
                        c0 < b * prod_from(bs, i + 1),
                        b == bs[i as int],
                ;
            }
            let d = carry % b;
            carry = carry / b;
            r.push(d);
            proof {
                assert(carry < prod_from(bs, i + 1)) by (nonlinear_arith)
                    requires
                        b > 0,
                        carry == c0 / (b as nat),
                        c0 < b * prod_from(bs, i + 1),
                ;
                assert(enc_from(bs, i as int, c0) =~= seq![d] + enc_from(bs, i + 1, carry as nat));
                assert(pre + enc_from(bs, i as int, c0) =~= r@ + enc_from(bs, i + 1, carry as nat));
            }
            i = i + 1;
        }
        proof {
            assert(enc_from(bs, n as int, carry as nat) =~= Seq::<usize>::empty());
            assert(r@ =~= enc_from(bs, 0, *val as nat));
            lemma_enc_from_valid(bs, 0, *val as nat);
        }
        r
    }

    /// Reads a representation back into the value it stands for: the sum of
    /// each digit times the product of the bases before its position.
    pub fn decode_representation(&self, repr: &Vec<usize>) -> (r: usize)
        requires
            self.wf(),
            valid_repr(self.bases@, repr@),
        ensures
            r == spec_decode(self.bases@, repr@),
            r < self.max_value,
    {
        let ghost bs = self.bases@;
        let n = self.bases.len();
        let mut sum: usize = 0;
        let mut mult: usize = 1;
        let mut i: usize = 0;
        proof {
            lemma_dec_from_bound(bs, 0, repr@);
            assert(repr@.skip(0) =~= repr@);
        }
        while i < n
            invariant
                0 <= i <= n,
                n == bs.len(),
                self.bases@ == bs,
                self.wf(),
                valid_repr(bs, repr@),
                repr@.len() == n,
                sum + mult * dec_from(bs, i as int, repr@.skip(i as int)) == spec_decode(bs, repr@),
                mult * prod_from(bs, i as int) == radix_product(bs),
                spec_decode(bs, repr@) < radix_product(bs),
                radix_product(bs) <= usize::MAX,
            decreases n - i,
        {
            let ghost suffix = repr@.skip(i as int);
            let ghost rest = dec_from(bs, i + 1, repr@.skip(i + 1));
            let ghost d = repr@[i as int] as int;
            let ghost b = bs[i as int] as int;
            let ghost total = spec_decode(bs, repr@) as int;
            proof {
                assert forall|j: int| i <= j < bs.len() implies bs[j] >= 1 by {
                    assert(repr@[j] < bs[j]);
                }
                lemma_prod_from_pos(bs, i + 1);
                assert(suffix.drop_first() =~= repr@.skip(i + 1));
                assert(suffix[0] == repr@[i as int]);
                assert(suffix.len() > 0);
                assert(dec_from(bs, i as int, suffix) == (d + b * rest) as nat);
                assert(b * prod_from(bs, i + 1) == prod_from(bs, i as int));
                // the partial sum and the next place value both stay below
                // the full product, so no step overflows
                assert((sum + mult * d) + (mult * b) * rest == total && sum + mult * d <= total
                    && (mult * b) * prod_from(bs, i + 1) == radix_product(bs) && mult * b
                    <= radix_product(bs)) by (nonlinear_arith)
                    requires
                        sum + mult * ((d + b * rest) as nat) == total,
                        mult * prod_from(bs, i as int) == radix_product(bs),
                        b * prod_from(bs, i + 1) == prod_from(bs, i as int),
                        prod_from(bs, i + 1) >= 1,
                        mult >= 0,
                        0 <= d,
                        0 <= b,
                        0 <= rest,
                ;
            }
            sum = sum + repr[i] * mult;
            mult = mult * self.bases[i];
            i = i + 1;
        }
        proof {
            assert(repr@.skip(n as int) =~= Seq::<usize>::empty());
            assert(dec_from(bs, n as int, repr@.skip(n as int)) == 0);
            assert(sum + mult * 0 == spec_decode(bs, repr@));
        }
        sum
    }

    /// Starts a fresh pass over all representations of this system, in
    /// increasing value order.
    pub fn iter(&self) -> (it: MixedRadixIter<'_>)
        ensures
            it.system == self,
            it.i == 0,
    {
        MixedRadixIter { system: self, i: 0 }
    }

    /// Materializes the full representation sequence: entry `v` is the
    /// representation of `v`, so the entries stand in increasing value order.
    pub fn all_representations(&self) -> (r: Vec<Vec<usize>>)
        requires
            self.wf(),
        ensures
            r@.len() == self.max_value,
            forall|v: int|
                0 <= v < r@.len() ==> #[trigger] r@[v]@ == spec_encode(self.bases@, v as nat),
            forall|v: int|
                0 <= v < r@.len() ==> spec_decode(self.bases@, #[trigger] r@[v]@) == v,
    {
        let mut r: Vec<Vec<usize>> = Vec::new();
        let mut it = self.iter();
        while it.i < it.system.max_value
            invariant
                it.system == self,
                self.wf(),
                r@.len() == it.i <= self.max_value,
                forall|v: int|
                    0 <= v < r@.len() ==> #[trigger] r@[v]@ == spec_encode(self.bases@, v as nat),
            decreases self.max_value - it.i,
        {
            let repr = it.next().unwrap();
            r.push(repr);
        }
        proof {
            assert forall|v: int| 0 <= v < r@.len() implies spec_decode(
                self.bases@,
                #[trigger] r@[v]@,
            ) == v by {
                lemma_codec_round_trip(self.bases@, v as nat);
            }
        }
        r
    }
}

/// Taking one more base multiplies the prefix product by that base.
proof fn lemma_take_product_step(bases: Seq<usize>, i: int)
    requires
        0 <= i < bases.len(),
    ensures
        radix_product(bases.take(i + 1)) == radix_product(bases.take(i)) * bases[i],
{
    assert(bases.take(i + 1).drop_last() =~= bases.take(i));
    lemma_prod_append_one(bases.take(i + 1), 0);
}

/// Suffix products of a sequence whose last entry is `b`: the product from
/// `i` is the product from `i` of the shortened sequence times `b`.
proof fn lemma_prod_append_one(s: Seq<usize>, i: int)
    requires
        0 <= i < s.len(),
    ensures
        prod_from(s, i) == prod_from(s.drop_last(), i) * s[s.len() - 1],
    decreases s.len() - i,
{
    if i == s.len() - 1 {
        assert(prod_from(s, s.len() as int) == 1);
        assert(prod_from(s.drop_last(), i) == 1);
    } else {
        lemma_prod_append_one(s, i + 1);
        assert(s.drop_last()[i] == s[i]);
        assert(prod_from(s, i) == (s[i] * prod_from(s, i + 1)) as nat);
        assert(prod_from(s.drop_last(), i) == (s[i] * prod_from(s.drop_last(), i + 1)) as nat);
        assert(s[i] * (prod_from(s.drop_last(), i + 1) * s[s.len() - 1]) == (s[i] * prod_from(
            s.drop_last(),
            i + 1,
        )) * s[s.len() - 1]) by (nonlinear_arith);
    }
}

/// When every base from position `i` on is positive, so is the suffix product.
pub proof fn lemma_prod_from_pos(bases: Seq<usize>, i: int)
    requires
        0 <= i <= bases.len(),
        forall|j: int| i <= j < bases.len() ==> bases[j] >= 1,
    ensures
        prod_from(bases, i) >= 1,
    decreases bases.len() - i,
{
    if i < bases.len() {
        lemma_prod_from_pos(bases, i + 1);
        assert(bases[i] * prod_from(bases, i + 1) >= 1) by (nonlinear_arith)
            requires
                bases[i] >= 1,
                prod_from(bases, i + 1) >= 1,
        ;
    }
}

/// The product of the first `i` bases times the product of the rest is the
/// product of all of them.
pub proof fn lemma_prod_take_from(bases: Seq<usize>, i: int)
    requires
        0 <= i <= bases.len(),
    ensures
        radix_product(bases.take(i)) * prod_from(bases, i) == radix_product(bases),
    decreases i,
{
    if i == 0 {
        assert(bases.take(0) =~= Seq::<usize>::empty());
        assert(radix_product(bases.take(0)) == 1);
    } else {
        lemma_prod_take_from(bases, i - 1);
        lemma_take_product_step(bases, i - 1);
        vstd::arithmetic::mul::lemma_mul_nonnegative(bases[i - 1] as int, prod_from(bases, i) as int);
        assert(prod_from(bases, i - 1) == bases[i - 1] * prod_from(bases, i));
        assert(radix_product(bases.take(i)) * prod_from(bases, i) == radix_product(bases))
            by (nonlinear_arith)
            requires
                radix_product(bases.take(i)) == radix_product(bases.take(i - 1)) * bases[i - 1],
                prod_from(bases, i - 1) == bases[i - 1] * prod_from(bases, i),
                radix_product(bases.take(i - 1)) * prod_from(bases, i - 1) == radix_product(bases),
        ;
    }
}

/// Every prefix product divides into the full product, so when the later
/// bases are all positive the prefix products are bounded by it.
pub proof fn lemma_prefix_product_bounded(bases: Seq<usize>, i: int)
    requires
        0 <= i <= bases.len(),
        forall|j: int| 0 <= j < bases.len() ==> bases[j] >= 1,
    ensures
        radix_product(bases.take(i)) <= radix_product(bases),
{
    lemma_prod_take_from(bases, i);
    lemma_prod_from_pos(bases, i);
    assert(radix_product(bases.take(i)) <= radix_product(bases.take(i)) * prod_from(bases, i))
        by (nonlinear_arith)
        requires
            prod_from(bases, i) >= 1,
            radix_product(bases.take(i)) >= 0,
    ;
}


/// Adding two digit sequences position by position.
pub open spec fn digit_sum(a: Seq<usize>, b: Seq<usize>) -> Seq<usize> {
    Seq::new(a.len(), |j: int| (a[j] + b[j]) as usize)
}

/// Decoding is linear: the value of a position-wise sum is the sum of the
/// values.
pub proof fn lemma_dec_from_linear(bases: Seq<usize>, a: Seq<usize>, b: Seq<usize>, i: int)
    requires
        0 <= i <= bases.len(),
        a.len() == bases.len() - i,
        b.len() == a.len(),
        forall|j: int| 0 <= j < a.len() ==> a[j] + b[j] <= usize::MAX,
    ensures
        dec_from(bases, i, digit_sum(a, b)) == dec_from(bases, i, a) + dec_from(bases, i, b),
    decreases bases.len() - i,
{
    if i < bases.len() {
        assert(digit_sum(a, b).drop_first() =~= digit_sum(a.drop_first(), b.drop_first()));
        assert forall|j: int|
            0 <= j < a.drop_first().len() implies a.drop_first()[j] + b.drop_first()[j]
            <= usize::MAX by {
            assert(a.drop_first()[j] == a[j + 1] && b.drop_first()[j] == b[j + 1]);
        }
        lemma_dec_from_linear(bases, a.drop_first(), b.drop_first(), i + 1);
        let ra = dec_from(bases, i + 1, a.drop_first());
        let rb = dec_from(bases, i + 1, b.drop_first());
        vstd::arithmetic::mul::lemma_mul_nonnegative(bases[i] as int, ra as int);
        vstd::arithmetic::mul::lemma_mul_nonnegative(bases[i] as int, rb as int);
        vstd::arithmetic::mul::lemma_mul_nonnegative(bases[i] as int, ra as int + rb as int);
        assert(digit_sum(a, b)[0] == (a[0] + b[0]) as usize);
        assert(bases[i] * (ra + rb) == bases[i] * ra + bases[i] * rb) by (nonlinear_arith);
    }
}

/// Decoding orders the same digit sequences the same way under wider bases:
/// if two representations that are valid for the narrow bases decode in
/// strict order, they keep that order when read against any wider bases.
pub proof fn lemma_dec_from_monotone(
    bs1: Seq<usize>,
    bs2: Seq<usize>,
    d1: Seq<usize>,
    d2: Seq<usize>,
    i: int,
)
    requires
        bs1.len() == bs2.len(),
        0 <= i <= bs1.len(),
        valid_from(bs1, i, d1),
        valid_from(bs1, i, d2),
        forall|j: int| i <= j < bs1.len() ==> bs1[j] <= bs2[j],
        dec_from(bs1, i, d1) < dec_from(bs1, i, d2),
    ensures
        dec_from(bs2, i, d1) < dec_from(bs2, i, d2),
    decreases bs1.len() - i,
{
    if i >= bs1.len() {
        assert(false);
    } else {
        let a0 = d1[0] as int;
        let b0 = d2[0] as int;
        assert(a0 < bs1[i] && b0 < bs1[i]) by {
            assert(d1[0] < bs1[i + 0]);
            assert(d2[0] < bs1[i + 0]);
        }
        assert(valid_from(bs1, i + 1, d1.drop_first())) by {
            assert forall|j: int|
                0 <= j < d1.drop_first().len() implies d1.drop_first()[j] < bs1[i + 1 + j] by {
                assert(d1.drop_first()[j] == d1[j + 1] && d1[j + 1] < bs1[i + (j + 1)]);
            }
        }
        assert(valid_from(bs1, i + 1, d2.drop_first())) by {
            assert forall|j: int|
                0 <= j < d2.drop_first().len() implies d2.drop_first()[j] < bs1[i + 1 + j] by {
                assert(d2.drop_first()[j] == d2[j + 1] && d2[j + 1] < bs1[i + (j + 1)]);
            }
        }
        let ra1 = dec_from(bs1, i + 1, d1.drop_first()) as int;
        let rb1 = dec_from(bs1, i + 1, d2.drop_first()) as int;
        let ra2 = dec_from(bs2, i + 1, d1.drop_first()) as int;
        let rb2 = dec_from(bs2, i + 1, d2.drop_first()) as int;
        let c1 = bs1[i] as int;
        let c2 = bs2[i] as int;
        vstd::arithmetic::mul::lemma_mul_nonnegative(c1, ra1);
        vstd::arithmetic::mul::lemma_mul_nonnegative(c1, rb1);
        vstd::arithmetic::mul::lemma_mul_nonnegative(c2, ra2);
        vstd::arithmetic::mul::lemma_mul_nonnegative(c2, rb2);
        assert(dec_from(bs1, i, d1) == a0 + c1 * ra1);
        assert(dec_from(bs1, i, d2) == b0 + c1 * rb1);
        assert(dec_from(bs2, i, d1) == a0 + c2 * ra2);
        assert(dec_from(bs2, i, d2) == b0 + c2 * rb2);
        if ra1 == rb1 {
            lemma_enc_dec_from(bs1, i + 1, d1.drop_first());
            lemma_enc_dec_from(bs1, i + 1, d2.drop_first());
            assert(d1.drop_first() == d2.drop_first());
            assert(ra2 == rb2);
            assert(a0 < b0);
        } else if ra1 < rb1 {
            lemma_dec_from_monotone(bs1, bs2, d1.drop_first(), d2.drop_first(), i + 1);
            assert(ra2 < rb2);
            assert(a0 + c2 * ra2 < b0 + c2 * rb2) by (nonlinear_arith)
                requires
                    ra2 < rb2,
                    0 <= a0 < c1 <= c2,
                    0 <= b0,
            ;
        } else {
            assert(a0 + c1 * ra1 >= b0 + c1 * rb1) by (nonlinear_arith)
                requires
                    rb1 < ra1,
                    0 <= b0 < c1,
                    0 <= a0,
            ;
            assert(false);
        }
    }
}

/// Position-wise smaller bases give a product no larger.
pub proof fn lemma_prod_mono_take(a: Seq<usize>, b: Seq<usize>, i: int)
    requires
        0 <= i <= a.len(),
        i <= b.len(),
        forall|j: int| 0 <= j < i ==> a[j] <= b[j],
    ensures
        radix_product(a.take(i)) <= radix_product(b.take(i)),
    decreases i,
{
    if i == 0 {
        assert(a.take(0) =~= Seq::<usize>::empty());
        assert(b.take(0) =~= Seq::<usize>::empty());
    } else {
        lemma_prod_mono_take(a, b, i - 1);
        lemma_take_product_step(a, i - 1);
        lemma_take_product_step(b, i - 1);
        assert(radix_product(a.take(i - 1)) * a[i - 1] <= radix_product(b.take(i - 1)) * b[i - 1])
            by (nonlinear_arith)
            requires
                radix_product(a.take(i - 1)) <= radix_product(b.take(i - 1)),
                0 <= a[i - 1] <= b[i - 1],
                radix_product(a.take(i - 1)) >= 0,
        ;
    }
}

/// A lazily restartable pass over every representation of a system, in
/// increasing value order. Two passes over the same system yield the same
/// sequence: each step is a pure function of the system and the counter.
pub struct MixedRadixIter<'a> {
    /// The system whose representations are enumerated.
    pub system: &'a MixedRadix,
    /// The value whose representation comes next.
    pub i: usize,
}

impl<'a> MixedRadixIter<'a> {
    /// Hands out the representation of the current value and advances, or
    /// reports exhaustion once every value has been seen.
    pub fn next(&mut self) -> (r: Option<Vec<usize>>)
        requires
            old(self).system.wf(),
        ensures
            final(self).system == old(self).system,
            old(self).i < old(self).system.max_value ==> {
                &&& final(self).i == old(self).i + 1
                &&& r matches Some(repr) && repr@ == spec_encode(
                    old(self).system.bases@,
                    old(self).i as nat,
                )
            },
            old(self).i >= old(self).system.max_value ==> r is None && final(self).i == old(
                self,
            ).i,
    {
        if self.i >= self.system.max_value {
            None
        } else {
            let out = self.system.encode_value(&self.i);
            self.i = self.i + 1;
            Some(out)
        }
    }
}

/// Iteration determinism: two full passes over a system's representation
/// sequence yield identical results, entry by entry — each pass is pinned to
/// the representations of `0, 1, 2, ...` in increasing value order.
pub fn check_iteration_deterministic(system: &MixedRadix) -> (b: bool)
    requires
        system.wf(),
    ensures
        b,
{
    let r1 = system.all_representations();
    let r2 = system.all_representations();
    if r1.len() != r2.len() {
        return false;
    }
    let mut v: usize = 0;
    while v < r1.len()
        invariant
            0 <= v <= r1@.len(),
            r1@.len() == r2@.len(),
            forall|x: int| 0 <= x < r1@.len() ==> #[trigger] r1@[x]@ == r2@[x]@,
        decreases r1@.len() - v,
    {
        let a = &r1[v];
        let b2 = &r2[v];
        if a.len() != b2.len() {
            return false;
        }
        let mut j: usize = 0;
        while j < a.len()
            invariant
                0 <= j <= a@.len(),
                a@ == r1@[v as int]@,
                b2@ == r2@[v as int]@,
                a@ == b2@,
                v < r1@.len(),
            decreases a@.len() - j,
        {
            if a[j] != b2[j] {
                return false;
            }
            j = j + 1;
        }
        v = v + 1;
    }
    true
}

} // verus!
