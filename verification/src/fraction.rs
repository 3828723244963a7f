//! Fractions and mixed numbers over `i32`, with least-common-multiple
//! based arithmetic.
//!
//! No operation reduces its result behind the caller's back: `sum`, `sub`
//! and `mul` leave whatever common factors they produce, and only `div`
//! (and an explicit `simplify`) reduces. The reduction itself is the
//! documented best-effort prime sweep, not a guaranteed normal form for
//! every sign combination.

use crate::divisibility::{
    div_trunc, divides, is_lcm, lcm2, lemma_coprime_divides, lemma_divides_iff_mod_zero,
    lemma_divides_le, lemma_divides_mul_right, lemma_divides_trans, lemma_exact_division,
    lemma_is_lcm_unique, lemma_lcm2_properties,
    lemma_one_divides, lemma_seq_lcm_is_lcm, lemma_trunc_fundamental, mod_trunc, seq_lcm,
};
use crate::divisibility::{all_divide, all_positive, lemma_divides_refl, lemma_seq_lcm_pair};
use crate::prime::{
    is_prime, is_prime_spec, lemma_coprime_with_prime, lemma_prime_factor_exists, next_prime,
    prime_test_result,
};
use vstd::prelude::*;

verus! {

/// A rational value as a plain numerator/denominator pair. No canonical
/// form is maintained: a `Fraction` may be unreduced until `simplify` is
/// called explicitly.
#[derive(PartialEq, Eq, Structural, Debug, Clone, Copy)]
pub struct Fraction {
    pub n: i32,
    pub d: i32,
}

/// A mixed number: an integer part together with a fractional remainder.
#[derive(PartialEq, Eq, Structural, Debug, Clone, Copy)]
pub struct FractionMixed {
    pub num_improprio: i32,
    pub fracao: Fraction,
}

/// The entries of an `i32` sequence, read as unbounded integers.
pub open spec fn ints_of(s: Seq<i32>) -> Seq<int> {
    Seq::new(s.len(), |i: int| s[i] as int)
}

/// No prime divides both `n` and `d`.
pub open spec fn no_common_prime(n: int, d: int) -> bool {
    forall|q: int| #[trigger] is_prime_spec(q) ==> !(divides(q, n) && divides(q, d))
}

/// Where the prime sweep of `simplify` comes to rest: both entries prime,
/// either entry too small to divide further, or no shared prime factor
/// left.
pub open spec fn reduced(n: int, d: int) -> bool {
    ||| (is_prime_spec(n) && is_prime_spec(d))
    ||| n < 2
    ||| d < 2
    ||| no_common_prime(n, d)
}

/// How `simplify` relates its input `(n0, d0)` to its output `(n1, d1)`:
/// one shared factor `k` is divided out of both entries, the output is
/// `reduced`, and an input that is already `reduced` comes back unchanged.
pub open spec fn simplify_rel(n0: int, d0: int, n1: int, d1: int) -> bool {
    &&& exists|k: int| k >= 1 && n0 == #[trigger] (k * n1) && d0 == k * d1
    &&& reduced(n1, d1)
    &&& (reduced(n0, d0) ==> n1 == n0 && d1 == d0)
}

/// The numerator a `sum` produces.
pub open spec fn sum_n(n1: int, d1: int, n2: int, d2: int) -> int {
    if d1 == d2 {
        n1 + n2
    } else {
        (lcm2(d1, d2) / d1) * n1 + (lcm2(d1, d2) / d2) * n2
    }
}

/// The denominator a `sum` produces.
pub open spec fn sum_d(d1: int, d2: int) -> int {
    if d1 == d2 {
        d1
    } else {
        lcm2(d1, d2)
    }
}

/// The numerator a `sub` produces: always the absolute difference of the
/// two numerators over the common denominator, never a signed result.
pub open spec fn sub_n(n1: int, d1: int, n2: int, d2: int) -> int {
    if d1 == d2 {
        if n1 > n2 {
            n1 - n2
        } else {
            n2 - n1
        }
    } else {
        let s1 = (lcm2(d1, d2) / d1) * n1;
        let s2 = (lcm2(d1, d2) / d2) * n2;
        if s1 > s2 {
            s1 - s2
        } else {
            s2 - s1
        }
    }
}

/// The denominator a `sub` produces.
pub open spec fn sub_d(d1: int, d2: int) -> int {
    sum_d(d1, d2)
}

/// The domain on which `sum` runs without faulting: equal denominators
/// only need the added numerators to fit; distinct denominators must be
/// positive, with the common denominator and the rescaled numerators in
/// `i32` range.
pub open spec fn sum_ok(n1: int, d1: int, n2: int, d2: int) -> bool {
    if d1 == d2 {
        i32::MIN <= n1 + n2 <= i32::MAX
    } else {
        &&& d1 >= 1
        &&& d2 >= 1
        &&& lcm2(d1, d2) <= i32::MAX
        &&& i32::MIN <= (lcm2(d1, d2) / d1) * n1 <= i32::MAX
        &&& i32::MIN <= (lcm2(d1, d2) / d2) * n2 <= i32::MAX
        &&& i32::MIN <= sum_n(n1, d1, n2, d2) <= i32::MAX
    }
}

/// The domain on which `sub` runs without faulting.
pub open spec fn sub_ok(n1: int, d1: int, n2: int, d2: int) -> bool {
    if d1 == d2 {
        -(i32::MAX as int) <= n1 - n2 <= i32::MAX
    } else {
        &&& d1 >= 1
        &&& d2 >= 1
        &&& lcm2(d1, d2) <= i32::MAX
        &&& i32::MIN <= (lcm2(d1, d2) / d1) * n1 <= i32::MAX
        &&& i32::MIN <= (lcm2(d1, d2) / d2) * n2 <= i32::MAX
        &&& -(i32::MAX as int) <= (lcm2(d1, d2) / d1) * n1 - (lcm2(d1, d2) / d2) * n2 <= i32::MAX
    }
}

/// The improper numerator a mixed number stands for, over its own
/// denominator.
pub open spec fn improper_n(fm: FractionMixed) -> int {
    fm.fracao.d * fm.num_improprio + fm.fracao.n
}

/// Sum of the entries of a sequence; the termination measure of the
/// factorization loop in `lcm`.
spec fn seq_sum(s: Seq<int>) -> int
    decreases s.len(),
{
    if s.len() == 0 {
        0
    } else {
        seq_sum(s.drop_last()) + s.last()
    }
}

proof fn lemma_seq_sum_bounds(s: Seq<int>)
    requires
        all_positive(s),
    ensures
        seq_sum(s) >= 0,
        forall|i: int| 0 <= i < s.len() ==> #[trigger] s[i] <= seq_sum(s),
    decreases s.len(),
{
    if s.len() > 0 {
        let t = s.drop_last();
        assert(forall|i: int| 0 <= i < t.len() ==> t[i] == s[i]);
        lemma_seq_sum_bounds(t);
    }
}

proof fn lemma_seq_sum_le(s1: Seq<int>, s2: Seq<int>)
    requires
        s1.len() == s2.len(),
        forall|i: int| 0 <= i < s1.len() ==> #[trigger] s2[i] <= s1[i],
    ensures
        seq_sum(s2) <= seq_sum(s1),
    decreases s1.len(),
{
    if s1.len() > 0 {
        let t1 = s1.drop_last();
        let t2 = s2.drop_last();
        assert(forall|i: int| 0 <= i < t1.len() ==> t1[i] == s1[i] && t2[i] == s2[i]);
        lemma_seq_sum_le(t1, t2);
    }
}

proof fn lemma_seq_sum_lt(s1: Seq<int>, s2: Seq<int>, j: int)
    requires
        s1.len() == s2.len(),
        forall|i: int| 0 <= i < s1.len() ==> #[trigger] s2[i] <= s1[i],
        0 <= j < s1.len(),
        s2[j] < s1[j],
    ensures
        seq_sum(s2) < seq_sum(s1),
    decreases s1.len(),
{
    let t1 = s1.drop_last();
    let t2 = s2.drop_last();
    assert(forall|i: int| 0 <= i < t1.len() ==> t1[i] == s1[i] && t2[i] == s2[i]);
    if j == s1.len() - 1 {
        lemma_seq_sum_le(t1, t2);
    } else {
        lemma_seq_sum_lt(t1, t2, j);
    }
}

/// Least common multiple of the listed values, by iterative prime
/// factorization: each prime in turn is divided out of every divisible
/// entry, and multiplied into the accumulator once per round, until every
/// entry has been worn down to 1. The list is consumed: it holds only 1s
/// afterwards.
pub fn lcm(l: &mut Vec<i32>) -> (r: i32)
    requires
        all_positive(ints_of(old(l)@)),
        seq_lcm(ints_of(old(l)@)) <= i32::MAX,
    ensures
        r as int == seq_lcm(ints_of(old(l)@)),
        is_lcm(ints_of(old(l)@), r as int),
        final(l)@.len() == old(l)@.len(),
        forall|i: int| 0 <= i < final(l)@.len() ==> final(l)@[i] == 1,
{
    let ghost orig: Seq<int> = ints_of(l@);
    let ghost big: int = seq_lcm(orig);
    proof {
        lemma_seq_lcm_is_lcm(orig);
    }
    let mut prime: i32 = 2;
    let mut mmc: i32 = 1;
    let mut ind: usize = 0;
    let mut all_one: bool = true;
    let mut is_decomposed: bool = false;
    proof {
        assert(is_prime_spec(2));
        assert forall|i: int| 0 <= i < orig.len() implies #[trigger] divides(
            orig[i],
            1int * ints_of(l@)[i],
        ) by {
            lemma_divides_refl(orig[i]);
        }
        assert forall|m: int| m >= 1 && #[trigger] all_divide(orig, m) implies divides(
            1int,
            m,
        ) by {
            lemma_one_divides(m);
        }
        assert forall|t: int| t >= 1 && #[trigger] all_divide(orig, 1int * t) implies all_divide(
            ints_of(l@),
            t,
        ) by {
            assert(1int * t == t);
        }
    }
    loop
        invariant_except_break
            ind == 0,
            all_one == true,
            is_decomposed == false,
            prime == 2 || (exists|i: int| 0 <= i < orig.len() && #[trigger] ints_of(l@)[i] >= 2),
        invariant
            l@.len() == orig.len(),
            all_positive(orig),
            big == seq_lcm(orig),
            1 <= big <= i32::MAX,
            is_lcm(orig, big),
            all_positive(ints_of(l@)),
            1 <= mmc as int,
            2 <= prime,
            is_prime_spec(prime as int) || prime == i32::MAX,
            forall|i: int| 0 <= i < orig.len() ==> #[trigger] divides(
                orig[i],
                (mmc as int) * ints_of(l@)[i],
            ),
            forall|m: int| m >= 1 && #[trigger] all_divide(orig, m) ==> divides(mmc as int, m),
            forall|t: int| t >= 1 && #[trigger] all_divide(orig, (mmc as int) * t) ==> all_divide(
                ints_of(l@),
                t,
            ),
            forall|q: int, i: int|
                is_prime_spec(q) && q < prime as int && 0 <= i < orig.len() ==> !#[trigger] divides(
                    q,
                    ints_of(l@)[i],
                ),
        ensures
            forall|i: int| 0 <= i < l@.len() ==> ints_of(l@)[i] == 1,
        decreases
                seq_sum(ints_of(l@)),
                (if prime as int <= seq_sum(ints_of(l@)) + 1 {
                    seq_sum(ints_of(l@)) + 1 - prime as int
                } else {
                    0
                }),
    {
        let ghost pass0: Seq<int> = ints_of(l@);
        while ind < l.len()
            invariant
                0 <= ind as int <= l@.len(),
                l@.len() == pass0.len(),
                2 <= prime,
                all_positive(pass0),
                all_positive(ints_of(l@)),
                forall|i: int| ind as int <= i < l@.len() ==> ints_of(l@)[i] == pass0[i],
                forall|i: int|
                    0 <= i < ind as int ==> ints_of(l@)[i] == (if pass0[i] % (prime as int) == 0 {
                        pass0[i] / (prime as int)
                    } else {
                        pass0[i]
                    }),
                is_decomposed == (exists|i: int|
                    0 <= i < ind as int && #[trigger] pass0[i] % (prime as int) == 0),
                all_one == (forall|i: int| 0 <= i < ind as int ==> #[trigger] ints_of(l@)[i] == 1),
            decreases l@.len() - ind as int,
        {
            let ghost step0: Seq<int> = ints_of(l@);
            let ghost lv0: Seq<i32> = l@;
            let e = l[ind];
            proof {
                assert(e as int == step0[ind as int]);
                assert(e as int == pass0[ind as int]);
                assert(e as int >= 1);
            }
            if e % prime == 0 {
                proof {
                    assert(pass0[ind as int] % (prime as int) == 0);
                    lemma_divides_iff_mod_zero(prime as int, pass0[ind as int]);
                    lemma_exact_division(prime as int, pass0[ind as int]);
                    assert(pass0[ind as int] / (prime as int) >= 1) by (nonlinear_arith)
                        requires
                            pass0[ind as int] == (prime as int) * (pass0[ind as int] / (
                            prime as int)),
                            pass0[ind as int] >= 1,
                            prime as int >= 2,
                    ;
                }
                let val = e / prime;
                proof {
                    assert(val as int == pass0[ind as int] / (prime as int));
                }
                l.set(ind, val);
                is_decomposed = true;
                proof {
                    assert forall|i: int| 0 <= i < l@.len() implies ints_of(l@)[i] == (if i
                        == ind as int {
                        val as int
                    } else {
                        step0[i]
                    }) by {
                        if i == ind as int {
                            assert(l@[i] == val);
                        } else {
                            assert(l@[i] == lv0[i]);
                        }
                    }
                    assert(all_positive(ints_of(l@))) by {
                        assert forall|i: int| 0 <= i < ints_of(l@).len() implies #[trigger] ints_of(
                            l@,
                        )[i] >= 1 by {
                            if i != ind as int {
                                assert(ints_of(l@)[i] == step0[i]);
                                assert(step0[i] >= 1);
                            }
                        }
                    }
                }
            }
            let ghost was_all_one: bool = all_one;
            if l[ind] > 1 {
                all_one = false;
            }
            proof {
                if all_one {
                    assert(ints_of(l@)[ind as int] == 1);
                } else if was_all_one {
                    assert(ints_of(l@)[ind as int] != 1);
                } else {
                    let j = choose|i: int| 0 <= i < ind as int && #[trigger] step0[i] != 1;
                    assert(ints_of(l@)[j] == step0[j]);
                    assert(ints_of(l@)[j] != 1);
                }
            }
            ind = ind + 1;
        }
        let ghost after: Seq<int> = ints_of(l@);
        proof {
            assert forall|i: int|
                0 <= i < pass0.len() && pass0[i] % (prime as int) == 0 implies pass0[i] == (
            prime as int) * after[i] && 1 <= after[i] && after[i] < pass0[i] by {
                lemma_divides_iff_mod_zero(prime as int, pass0[i]);
                lemma_exact_division(prime as int, pass0[i]);
                assert(1 <= after[i] && after[i] < pass0[i]) by (nonlinear_arith)
                    requires
                        pass0[i] == (prime as int) * after[i],
                        pass0[i] >= 1,
                        prime as int >= 2,
                ;
            }
            if prime == i32::MAX {
                assert forall|i: int|
                    0 <= i < pass0.len() && pass0[i] % (prime as int) != 0 implies pass0[i]
                    == 1 by {
                    if pass0[i] >= 2 {
                        lemma_prime_factor_exists(pass0[i]);
                        let q = choose|q: int| is_prime_spec(q) && divides(q, pass0[i]);
                        lemma_divides_le(q, pass0[i]);
                        assert(q == prime as int);
                        lemma_divides_iff_mod_zero(prime as int, pass0[i]);
                    }
                }
            }
        }
        if is_decomposed {
            let ghost j0: int = choose|i: int|
                0 <= i < pass0.len() && #[trigger] pass0[i] % (prime as int) == 0;
            proof {
                lemma_divides_iff_mod_zero(prime as int, pass0[j0]);
                assert(mmc as int * (prime as int) <= i32::MAX && divides(
                    (mmc as int) * (prime as int),
                    big,
                )) by {
                    lemma_exact_division(mmc as int, big);
                    let t = big / (mmc as int);
                    assert(t >= 1) by (nonlinear_arith)
                        requires
                            big == (mmc as int) * t,
                            big >= 1,
                            mmc as int >= 1,
                    ;
                    assert(all_divide(orig, (mmc as int) * t));
                    assert(all_divide(pass0, t));
                    assert(divides(pass0[j0], t));
                    let w = choose|k: int| t == #[trigger] (pass0[j0] * k);
                    let u = choose|k: int| pass0[j0] == #[trigger] ((prime as int) * k);
                    assert(big == ((mmc as int) * (prime as int)) * (u * w)) by (nonlinear_arith)
                        requires
                            big == (mmc as int) * t,
                            t == pass0[j0] * w,
                            pass0[j0] == (prime as int) * u,
                    ;
                    assert((mmc as int) * (prime as int) >= 1) by (nonlinear_arith)
                        requires
                            mmc as int >= 1,
                            prime as int >= 2,
                    ;
                    lemma_divides_le((mmc as int) * (prime as int), big);
                }
            }
            let ghost mmc0: int = mmc as int;
            proof {
                assert(1 <= (mmc as int) * (prime as int)) by (nonlinear_arith)
                    requires
                        mmc as int >= 1,
                        prime as int >= 2,
                ;
            }
            mmc = mmc * prime;
            proof {
                let p = prime as int;
                let m1 = mmc as int;
                assert(m1 == mmc0 * p);
                assert forall|i: int| 0 <= i < orig.len() implies #[trigger] divides(
                    orig[i],
                    m1 * after[i],
                ) by {
                    if pass0[i] % p == 0 {
                        assert(mmc0 * pass0[i] == m1 * after[i]) by (nonlinear_arith)
                            requires
                                pass0[i] == p * after[i],
                                m1 == mmc0 * p,
                        ;
                    } else {
                        lemma_divides_mul_right(orig[i], mmc0 * pass0[i], p);
                        assert((mmc0 * pass0[i]) * p == m1 * after[i]) by (nonlinear_arith)
                            requires
                                after[i] == pass0[i],
                                m1 == mmc0 * p,
                        ;
                    }
                }
                assert forall|m: int| m >= 1 && #[trigger] all_divide(orig, m) implies divides(
                    m1,
                    m,
                ) by {
                    assert(divides(mmc0, m));
                    lemma_exact_division(mmc0, m);
                    let t = m / mmc0;
                    assert(t >= 1) by (nonlinear_arith)
                        requires
                            m == mmc0 * t,
                            m >= 1,
                            mmc0 >= 1,
                    ;
                    assert(all_divide(orig, mmc0 * t));
                    assert(all_divide(pass0, t));
                    assert(divides(pass0[j0], t));
                    let w = choose|k: int| t == #[trigger] (pass0[j0] * k);
                    let u = choose|k: int| pass0[j0] == #[trigger] (p * k);
                    assert(m == m1 * (u * w)) by (nonlinear_arith)
                        requires
                            m == mmc0 * t,
                            t == pass0[j0] * w,
                            pass0[j0] == p * u,
                            m1 == mmc0 * p,
                    ;
                }
                assert forall|t: int| t >= 1 && #[trigger] all_divide(orig, m1 * t) implies
                    all_divide(after, t) by {
                    assert(m1 * t == mmc0 * (p * t)) by (nonlinear_arith)
                        requires
                            m1 == mmc0 * p,
                    ;
                    assert(p * t >= 1) by (nonlinear_arith)
                        requires
                            p >= 2,
                            t >= 1,
                    ;
                    assert(all_divide(orig, mmc0 * (p * t)));
                    assert(all_divide(pass0, p * t));
                    assert forall|i: int| 0 <= i < after.len() implies divides(
                        #[trigger] after[i],
                        t,
                    ) by {
                        assert(divides(pass0[i], p * t));
                        if pass0[i] % p == 0 {
                            let w = choose|k: int| p * t == #[trigger] (pass0[i] * k);
                            assert(t == after[i] * w) by (nonlinear_arith)
                                requires
                                    p * t == pass0[i] * w,
                                    pass0[i] == p * after[i],
                                    p >= 2,
                            ;
                        } else if prime == i32::MAX {
                            assert(pass0[i] == 1);
                            lemma_one_divides(t);
                        } else {
                            lemma_divides_iff_mod_zero(p, pass0[i]);
                            lemma_coprime_with_prime(pass0[i], p);
                            lemma_coprime_divides(pass0[i], p, t);
                        }
                    }
                }
                assert forall|q: int, i: int|
                    is_prime_spec(q) && q < prime as int && 0 <= i
                        < orig.len() implies !#[trigger] divides(q, after[i]) by {
                    if divides(q, after[i]) {
                        if pass0[i] % p == 0 {
                            lemma_divides_mul_right(q, after[i], p);
                            assert(after[i] * p == pass0[i]) by (nonlinear_arith)
                                requires
                                    pass0[i] == p * after[i],
                            ;
                        }
                        assert(divides(q, pass0[i]));
                        assert(false);
                    }
                }
            }
        } else {
            proof {
                assert(after =~= pass0);
                if prime == i32::MAX {
                    assert forall|i: int| 0 <= i < pass0.len() implies pass0[i] == 1 by {
                        lemma_divides_iff_mod_zero(prime as int, pass0[i]);
                    }
                    assert(prime != 2);
                    let e0 = choose|i: int| 0 <= i < orig.len() && #[trigger] ints_of(l@)[i] >= 2;
                    assert(false);
                }
            }
            let ghost prime0: int = prime as int;
            prime = next_prime(prime);
            proof {
                assert forall|q: int, i: int|
                    is_prime_spec(q) && q < prime as int && 0 <= i
                        < orig.len() implies !#[trigger] divides(q, after[i]) by {
                    if divides(q, after[i]) {
                        assert(after[i] == pass0[i]);
                        if q < prime0 {
                            assert(false);
                        } else if q == prime0 {
                            lemma_divides_iff_mod_zero(prime0, pass0[i]);
                            assert(false);
                        } else {
                            assert(!is_prime_spec(q));
                            assert(false);
                        }
                    }
                }
            }
        }
        if all_one {
            break;
        }
        proof {
            let e0 = choose|i: int| 0 <= i < after.len() && #[trigger] ints_of(l@)[i] != 1;
            assert(after[e0] >= 2);
            assert(ints_of(l@)[e0] >= 2);
            lemma_prime_factor_exists(after[e0]);
            let q = choose|q: int| is_prime_spec(q) && divides(q, after[e0]);
            lemma_divides_le(q, after[e0]);
            lemma_seq_sum_bounds(after);
            assert(!(q < prime as int));
            assert(prime as int <= seq_sum(after));
            if is_decomposed {
                assert forall|i: int| 0 <= i < pass0.len() implies #[trigger] after[i]
                    <= pass0[i] by {}
                let jj = choose|i: int|
                    0 <= i < pass0.len() && #[trigger] pass0[i] % (prime as int) == 0;
                lemma_seq_sum_lt(pass0, after, jj);
            } else {
                assert(seq_sum(after) == seq_sum(pass0));
            }
        }
        all_one = true;
        is_decomposed = false;
        ind = 0;
    }
    proof {
        assert forall|i: int| 0 <= i < orig.len() implies #[trigger] divides(
            orig[i],
            mmc as int,
        ) by {
            assert(divides(orig[i], (mmc as int) * ints_of(l@)[i]));
            assert((mmc as int) * ints_of(l@)[i] == mmc as int);
        }
        assert(all_divide(orig, mmc as int));
        assert(is_lcm(orig, mmc as int));
        lemma_is_lcm_unique(orig, mmc as int, big);
        assert forall|i: int| 0 <= i < l@.len() implies l@[i] == 1i32 by {
            assert(ints_of(l@)[i] == 1);
        }
    }
    mmc
}

impl Fraction {
    /// Best-effort reduction: divide numerator and denominator by each
    /// shared prime, smallest first, until both are prime, one is
    /// exhausted, or the candidate prime overtakes one of them.
    pub fn simplify(&mut self)
        ensures
            simplify_rel(
                old(self).n as int,
                old(self).d as int,
                final(self).n as int,
                final(self).d as int,
            ),
    {
        let ghost n0: int = self.n as int;
        let ghost d0: int = self.d as int;
        let mut n = self.n;
        let mut d = self.d;
        let mut p: i32 = 2;
        proof {
            assert(n0 == 1 * (n as int) && d0 == 1 * (d as int));
        }
        loop
            invariant
                2 <= p,
                exists|k: int| k >= 1 && n0 == #[trigger] (k * (n as int)) && d0 == k * (d as int),
                forall|q: int|
                    2 <= q < p && #[trigger] is_prime_spec(q) ==> !(divides(q, n as int)
                        && divides(q, d as int)),
                reduced(n0, d0) ==> n as int == n0 && d as int == d0,
            ensures
                (prime_test_result(n as int) && prime_test_result(d as int)) || n == 1 || d == 1
                    || p > n || p > d,
            decreases
                    (if n as int + d as int >= 0 {
                        n as int + d as int
                    } else {
                        0
                    }),
                    (if 2 <= p as int && p <= n && p <= d {
                        n as int + d as int + 1 - p as int
                    } else {
                        0
                    }),
        {
            let stop = (is_prime(n) && is_prime(d)) || n == 1 || d == 1 || p > n || p > d;
            if stop {
                break;
            }
            if n % p == 0 && d % p == 0 {
                proof {
                    lemma_divides_iff_mod_zero(p as int, n as int);
                    lemma_divides_iff_mod_zero(p as int, d as int);
                    lemma_exact_division(p as int, n as int);
                    lemma_exact_division(p as int, d as int);
                    let k = choose|k: int|
                        k >= 1 && n0 == #[trigger] (k * (n as int)) && d0 == k * (d as int);
                    assert(n0 == (k * (p as int)) * ((n as int) / (p as int)) && d0 == (k * (
                    p as int)) * ((d as int) / (p as int)) && k * (p as int) >= 1)
                        by (nonlinear_arith)
                        requires
                            n0 == k * (n as int),
                            d0 == k * (d as int),
                            n as int == (p as int) * ((n as int) / (p as int)),
                            d as int == (p as int) * ((d as int) / (p as int)),
                            k >= 1,
                            p >= 2,
                    ;
                    if reduced(n0, d0) {
                        assert(n as int == n0 && d as int == d0);
                        if n0 < 2 || d0 < 2 {
                            assert(false);
                        } else if is_prime_spec(n0) && is_prime_spec(d0) {
                            assert(false);
                        } else {
                            lemma_prime_factor_exists(p as int);
                            let q = choose|q: int| is_prime_spec(q) && divides(q, p as int);
                            lemma_divides_trans(q, p as int, n as int);
                            lemma_divides_trans(q, p as int, d as int);
                            assert(false);
                        }
                    }
                }
                let ghost n_before: int = n as int;
                let ghost d_before: int = d as int;
                n = n / p;
                d = d / p;
                proof {
                    assert(1 <= n as int && (n as int) < n_before && 1 <= d as int && (d as int)
                        < d_before)
                        by (nonlinear_arith)
                        requires
                            n_before == (p as int) * (n as int),
                            d_before == (p as int) * (d as int),
                            p >= 2,
                            n_before >= 2,
                            d_before >= 2,
                    ;
                    assert forall|q: int|
                        2 <= q < p && #[trigger] is_prime_spec(q) implies !(divides(q, n as int)
                        && divides(q, d as int)) by {
                        if divides(q, n as int) && divides(q, d as int) {
                            lemma_divides_mul_right(q, n as int, p as int);
                            lemma_divides_mul_right(q, d as int, p as int);
                            assert((n as int) * (p as int) == n_before && (d as int) * (p as int)
                                == d_before) by (nonlinear_arith)
                                requires
                                    n_before == (p as int) * (n as int),
                                    d_before == (p as int) * (d as int),
                            ;
                        }
                    }
                }
            } else {
                proof {
                    lemma_divides_iff_mod_zero(p as int, n as int);
                    lemma_divides_iff_mod_zero(p as int, d as int);
                    if p == i32::MAX {
                        assert(n == i32::MAX && d == i32::MAX);
                        assert((n as int) % (p as int) == 0 && (d as int) % (p as int) == 0)
                            by (nonlinear_arith)
                            requires
                                n as int == p as int,
                                d as int == p as int,
                                p >= 2,
                        ;
                        assert(false);
                    }
                }
                let ghost p_before: int = p as int;
                p = next_prime(p);
                proof {
                    assert forall|q: int|
                        2 <= q < p && #[trigger] is_prime_spec(q) implies !(divides(q, n as int)
                        && divides(q, d as int)) by {
                        if q < p_before {
                        } else if q == p_before {
                        } else {
                            assert(!is_prime_spec(q));
                        }
                    }
                }
            }
        }
        proof {
            if n as int >= 2 && d as int >= 2 {
                if n == 1 || d == 1 {
                    assert(false);
                } else if p > n || p > d {
                    assert forall|q: int| #[trigger]
                        is_prime_spec(q) implies !(divides(q, n as int) && divides(
                        q,
                        d as int,
                    )) by {
                        if divides(q, n as int) && divides(q, d as int) {
                            lemma_divides_le(q, n as int);
                            lemma_divides_le(q, d as int);
                        }
                    }
                    assert(no_common_prime(n as int, d as int));
                } else {
                    assert(is_prime_spec(n as int) && is_prime_spec(d as int));
                }
            }
            assert(reduced(n as int, d as int));
        }
        self.n = n;
        self.d = d;
    }

    /// Add `other` in place. Equal denominators add numerators directly;
    /// distinct denominators are first unified over their least common
    /// multiple.
    pub fn sum(&mut self, other: &Fraction)
        requires
            sum_ok(old(self).n as int, old(self).d as int, other.n as int, other.d as int),
        ensures
            final(self).n as int == sum_n(
                old(self).n as int,
                old(self).d as int,
                other.n as int,
                other.d as int,
            ),
            final(self).d as int == sum_d(old(self).d as int, other.d as int),
    {
        if self.d != other.d {
            let ghost d1: int = self.d as int;
            let ghost d2: int = other.d as int;
            let mut dens: Vec<i32> = Vec::new();
            dens.push(self.d);
            dens.push(other.d);
            proof {
                assert(ints_of(dens@) =~= seq![d1, d2]);
                lemma_seq_lcm_pair(d1, d2);
                lemma_lcm2_properties(d1, d2);
                assert(all_positive(ints_of(dens@)));
            }
            let m = lcm(&mut dens);
            proof {
                assert(m as int == lcm2(d1, d2));
                lemma_exact_division(d1, lcm2(d1, d2));
                lemma_exact_division(d2, lcm2(d1, d2));
            }
            let q1 = m / self.d;
            let q2 = m / other.d;
            self.n = q1 * self.n + q2 * other.n;
            self.d = m;
        } else {
            self.n = self.n + other.n;
        }
    }

    /// Subtract `other` in place: the numerators are brought over a
    /// common denominator where needed, and their absolute difference is
    /// taken — by policy `sub` never produces a signed result, so it is
    /// not a true additive inverse of `sum` when the minuend is smaller.
    pub fn sub(&mut self, other: &Fraction)
        requires
            sub_ok(old(self).n as int, old(self).d as int, other.n as int, other.d as int),
        ensures
            final(self).n as int == sub_n(
                old(self).n as int,
                old(self).d as int,
                other.n as int,
                other.d as int,
            ),
            final(self).d as int == sub_d(old(self).d as int, other.d as int),
    {
        if self.d != other.d {
            let ghost d1: int = self.d as int;
            let ghost d2: int = other.d as int;
            let mut dens: Vec<i32> = Vec::new();
            dens.push(self.d);
            dens.push(other.d);
            proof {
                assert(ints_of(dens@) =~= seq![d1, d2]);
                lemma_seq_lcm_pair(d1, d2);
                lemma_lcm2_properties(d1, d2);
                assert(all_positive(ints_of(dens@)));
            }
            let m = lcm(&mut dens);
            proof {
                assert(m as int == lcm2(d1, d2));
                lemma_exact_division(d1, lcm2(d1, d2));
                lemma_exact_division(d2, lcm2(d1, d2));
            }
            let q1 = m / self.d;
            let q2 = m / other.d;
            let s1 = q1 * self.n;
            let s2 = q2 * other.n;
            self.n = if s1 > s2 {
                s1 - s2
            } else {
                s2 - s1
            };
            self.d = m;
        } else {
            self.n = if self.n > other.n {
                self.n - other.n
            } else {
                other.n - self.n
            };
        }
    }

    /// Multiply the numerator alone by an integer scalar.
    pub fn mul_int(&mut self, m: i32)
        requires
            i32::MIN <= old(self).n * m <= i32::MAX,
        ensures
            final(self).n as int == old(self).n * m,
            final(self).d == old(self).d,
    {
        self.n = self.n * m;
    }

    /// Multiply numerators and denominators pointwise; the result is not
    /// reduced.
    pub fn mul(&mut self, other: &Fraction)
        requires
            i32::MIN <= old(self).n * other.n <= i32::MAX,
            i32::MIN <= old(self).d * other.d <= i32::MAX,
        ensures
            final(self).n as int == old(self).n * other.n,
            final(self).d as int == old(self).d * other.d,
    {
        self.n = self.n * other.n;
        self.d = self.d * other.d;
    }

    /// Divide by cross-multiplying, then always reduce the result.
    pub fn div(&mut self, other: &Fraction)
        requires
            i32::MIN <= old(self).n * other.d <= i32::MAX,
            i32::MIN <= old(self).d * other.n <= i32::MAX,
        ensures
            simplify_rel(
                old(self).n * other.d,
                old(self).d * other.n,
                final(self).n as int,
                final(self).d as int,
            ),
    {
        self.n = self.n * other.d;
        self.d = self.d * other.n;
        self.simplify();
    }

    /// Rescale so the denominator becomes `mmc`, an exact multiple of the
    /// current denominator.
    pub fn apply_lcm(&mut self, mmc: i32)
        requires
            old(self).d >= 1,
            divides(old(self).d as int, mmc as int),
            i32::MIN <= (mmc as int / old(self).d as int) * old(self).n <= i32::MAX,
        ensures
            final(self).n as int == (mmc as int / old(self).d as int) * old(self).n,
            final(self).d == mmc,
    {
        proof {
            crate::divisibility::lemma_div_trunc_exact(mmc as int, self.d as int);
        }
        let q = mmc / self.d;
        proof {
            assert(q as int == div_trunc(mmc as int, self.d as int));
        }
        self.n = q * self.n;
        self.d = mmc;
    }

    /// Split into whole part and remainder by truncating division.
    pub fn get_fraction_mixed(&self) -> (fm: FractionMixed)
        requires
            self.d >= 1,
        ensures
            fm.num_improprio as int == div_trunc(self.n as int, self.d as int),
            fm.fracao.n as int == mod_trunc(self.n as int, self.d as int),
            fm.fracao.d == self.d,
    {
        FractionMixed {
            num_improprio: self.n / self.d,
            fracao: Fraction { n: self.n % self.d, d: self.d },
        }
    }
}

impl FractionMixed {
    /// The improper fraction this mixed number stands for.
    pub fn get_fraction(&self) -> (f: Fraction)
        requires
            i32::MIN <= self.fracao.d * self.num_improprio <= i32::MAX,
            i32::MIN <= improper_n(*self) <= i32::MAX,
        ensures
            f.n as int == improper_n(*self),
            f.d == self.fracao.d,
    {
        Fraction { n: (self.fracao.d * self.num_improprio) + self.fracao.n, d: self.fracao.d }
    }

    /// Add `other` in place: the fractional parts are added, a fractional
    /// numerator that exceeds its denominator is carried into the whole
    /// part, and the whole parts are added. (The carry fires only on a
    /// strict excess: a numerator equal to its denominator is left as it
    /// stands.)
    pub fn sum(&mut self, other: &FractionMixed)
        requires
            old(self).fracao.d >= 1,
            other.fracao.d >= 1,
            sum_ok(
                old(self).fracao.n as int,
                old(self).fracao.d as int,
                other.fracao.n as int,
                other.fracao.d as int,
            ),
            ({
                let ns = sum_n(
                    old(self).fracao.n as int,
                    old(self).fracao.d as int,
                    other.fracao.n as int,
                    other.fracao.d as int,
                );
                let ds = sum_d(old(self).fracao.d as int, other.fracao.d as int);
                &&& (ns > ds ==> i32::MIN <= old(self).num_improprio + ns / ds <= i32::MAX
                    && i32::MIN <= old(self).num_improprio + ns / ds + other.num_improprio
                    <= i32::MAX)
                &&& (ns <= ds ==> i32::MIN <= old(self).num_improprio + other.num_improprio
                    <= i32::MAX)
            }),
        ensures
            ({
                let ns = sum_n(
                    old(self).fracao.n as int,
                    old(self).fracao.d as int,
                    other.fracao.n as int,
                    other.fracao.d as int,
                );
                let ds = sum_d(old(self).fracao.d as int, other.fracao.d as int);
                &&& final(self).fracao.d as int == ds
                &&& (ns > ds ==> final(self).fracao.n as int == ns % ds && final(self).num_improprio as int == old(self).num_improprio + ns / ds
                    + other.num_improprio)
                &&& (ns <= ds ==> final(self).fracao.n as int == ns && final(self).num_improprio as int == old(self).num_improprio + other.num_improprio)
            }),
    {
        proof {
            if self.fracao.d != other.fracao.d {
                lemma_lcm2_properties(self.fracao.d as int, other.fracao.d as int);
            }
        }
        self.fracao.sum(&other.fracao);
        if self.fracao.n > self.fracao.d {
            self.num_improprio = self.num_improprio + self.fracao.n / self.fracao.d;
            self.fracao.n = self.fracao.n % self.fracao.d;
        }
        self.num_improprio = self.num_improprio + other.num_improprio;
    }

    /// Subtract `other` in place: the fractional parts go through the
    /// fraction `sub`, and the whole parts are subtracted directly. No
    /// borrow is taken from the whole part when the fractional
    /// subtraction comes up short; that quirk is part of the documented
    /// behaviour.
    pub fn sub(&mut self, other: &FractionMixed)
        requires
            sub_ok(
                old(self).fracao.n as int,
                old(self).fracao.d as int,
                other.fracao.n as int,
                other.fracao.d as int,
            ),
            i32::MIN <= old(self).num_improprio - other.num_improprio <= i32::MAX,
        ensures
            final(self).fracao.n as int == sub_n(
                old(self).fracao.n as int,
                old(self).fracao.d as int,
                other.fracao.n as int,
                other.fracao.d as int,
            ),
            final(self).fracao.d as int == sub_d(old(self).fracao.d as int, other.fracao.d as int),
            final(self).num_improprio as int == old(self).num_improprio - other.num_improprio,
    {
        self.fracao.sub(&other.fracao);
        self.num_improprio = self.num_improprio - other.num_improprio;
    }

    /// Multiply by `other` in place: both sides become improper
    /// fractions, which are multiplied, reduced, and converted back to
    /// mixed form.
    pub fn mul(&mut self, other: &FractionMixed)
        requires
            old(self).fracao.d >= 1,
            other.fracao.d >= 1,
            i32::MIN <= old(self).fracao.d * old(self).num_improprio <= i32::MAX,
            i32::MIN <= improper_n(*old(self)) <= i32::MAX,
            i32::MIN <= other.fracao.d * other.num_improprio <= i32::MAX,
            i32::MIN <= improper_n(*other) <= i32::MAX,
            i32::MIN <= improper_n(*old(self)) * improper_n(*other) <= i32::MAX,
            old(self).fracao.d * other.fracao.d <= i32::MAX,
        ensures
            exists|ns: int, ds: int|
                #[trigger] simplify_rel(
                    improper_n(*old(self)) * improper_n(*other),
                    old(self).fracao.d * other.fracao.d,
                    ns,
                    ds,
                ) && final(self).num_improprio as int == div_trunc(ns, ds) && final(self).fracao.n as int == mod_trunc(ns, ds) && final(self).fracao.d as int == ds,
    {
        let ghost dd1: int = self.fracao.d as int;
        let ghost dd2: int = other.fracao.d as int;
        proof {
            assert(dd1 * dd2 >= 1) by (nonlinear_arith)
                requires
                    dd1 >= 1,
                    dd2 >= 1,
            ;
        }
        let mut f1 = self.get_fraction();
        let f2 = other.get_fraction();
        f1.mul(&f2);
        f1.simplify();
        proof {
            lemma_simplify_rel_bounds(
                improper_n(*old(self)) * improper_n(*other),
                old(self).fracao.d * other.fracao.d,
                f1.n as int,
                f1.d as int,
            );
        }
        let fm = f1.get_fraction_mixed();
        self.num_improprio = fm.num_improprio;
        self.fracao.n = fm.fracao.n;
        self.fracao.d = fm.fracao.d;
    }

    /// Divide by `other` in place: both sides become improper fractions,
    /// the division cross-multiplies and reduces, and the result is
    /// converted back to mixed form.
    pub fn div(&mut self, other: &FractionMixed)
        requires
            old(self).fracao.d >= 1,
            other.fracao.d >= 1,
            improper_n(*other) >= 1,
            i32::MIN <= old(self).fracao.d * old(self).num_improprio <= i32::MAX,
            i32::MIN <= improper_n(*old(self)) <= i32::MAX,
            i32::MIN <= other.fracao.d * other.num_improprio <= i32::MAX,
            i32::MIN <= improper_n(*other) <= i32::MAX,
            i32::MIN <= improper_n(*old(self)) * other.fracao.d <= i32::MAX,
            old(self).fracao.d * improper_n(*other) <= i32::MAX,
        ensures
            exists|ns: int, ds: int|
                #[trigger] simplify_rel(
                    improper_n(*old(self)) * other.fracao.d,
                    old(self).fracao.d * improper_n(*other),
                    ns,
                    ds,
                ) && final(self).num_improprio as int == div_trunc(ns, ds) && final(self).fracao.n as int == mod_trunc(ns, ds) && final(self).fracao.d as int == ds,
    {
        let ghost dd1: int = self.fracao.d as int;
        let ghost nn2: int = improper_n(*other);
        proof {
            assert(dd1 * nn2 >= 1) by (nonlinear_arith)
                requires
                    dd1 >= 1,
                    nn2 >= 1,
            ;
        }
        let mut f1 = self.get_fraction();
        let f2 = other.get_fraction();
        f1.div(&f2);
        let ghost na: int = f1.n as int;
        let ghost da: int = f1.d as int;
        f1.simplify();
        proof {
            lemma_simplify_idempotent(
                improper_n(*old(self)) * other.fracao.d,
                old(self).fracao.d * improper_n(*other),
                na,
                da,
                f1.n as int,
                f1.d as int,
            );
            lemma_simplify_rel_bounds(
                improper_n(*old(self)) * other.fracao.d,
                old(self).fracao.d * improper_n(*other),
                f1.n as int,
                f1.d as int,
            );
        }
        let fm = f1.get_fraction_mixed();
        self.num_improprio = fm.num_improprio;
        self.fracao.n = fm.fracao.n;
        self.fracao.d = fm.fracao.d;
    }
}

/// Converting a fraction with positive denominator to mixed form and back
/// returns exactly the fraction it came from.
pub proof fn lemma_mixed_round_trip(f: Fraction, fm: FractionMixed, g: Fraction)
    requires
        f.d >= 1,
        fm.num_improprio as int == div_trunc(f.n as int, f.d as int),
        fm.fracao.n as int == mod_trunc(f.n as int, f.d as int),
        fm.fracao.d == f.d,
        g.n as int == improper_n(fm),
        g.d == fm.fracao.d,
    ensures
        g == f,
{
    lemma_trunc_fundamental(f.n as int, f.d as int);
}

/// Reducing twice is the same as reducing once: the second pass of
/// `simplify` leaves its input untouched.
pub proof fn lemma_simplify_idempotent(
    n0: int,
    d0: int,
    n1: int,
    d1: int,
    n2: int,
    d2: int,
)
    requires
        simplify_rel(n0, d0, n1, d1),
        simplify_rel(n1, d1, n2, d2),
    ensures
        n2 == n1 && d2 == d1,
{
}

/// Reducing never changes the rational value a fraction stands for: the
/// input and output numerator/denominator pairs are cross-proportional.
pub proof fn lemma_simplify_preserves_value(n0: int, d0: int, n1: int, d1: int)
    requires
        simplify_rel(n0, d0, n1, d1),
    ensures
        n0 * d1 == n1 * d0,
{
    let k = choose|k: int| k >= 1 && n0 == #[trigger] (k * n1) && d0 == k * d1;
    assert(n0 * d1 == n1 * d0) by (nonlinear_arith)
        requires
            n0 == k * n1,
            d0 == k * d1,
    ;
}

/// What dividing out a shared factor does to signs and magnitudes.
pub proof fn lemma_simplify_rel_bounds(n0: int, d0: int, n1: int, d1: int)
    requires
        simplify_rel(n0, d0, n1, d1),
    ensures
        d0 >= 1 ==> 1 <= d1 <= d0,
        n0 >= 1 ==> 1 <= n1 <= n0,
        n0 == 0 ==> n1 == 0,
        n0 <= -1 ==> n0 <= n1 <= -1,
{
    let k = choose|k: int| k >= 1 && n0 == #[trigger] (k * n1) && d0 == k * d1;
    assert((d0 >= 1 ==> 1 <= d1 <= d0) && (n0 >= 1 ==> 1 <= n1 <= n0) && (n0 == 0 ==> n1 == 0) && (
    n0 <= -1 ==> n0 <= n1 <= -1)) by (nonlinear_arith)
        requires
            k >= 1,
            n0 == k * n1,
            d0 == k * d1,
    ;
}

} // verus!
