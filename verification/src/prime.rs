//! Primality testing by trial division, next-prime search, and divisor
//! enumeration.

use crate::divisibility::{
    divides, gcd, lemma_divides_iff_mod_zero, lemma_divides_le, lemma_divides_refl,
    lemma_divides_trans, lemma_gcd_divides_both, lemma_gcd_positive, lemma_one_divides,
};
use vstd::prelude::*;

verus! {

/// `x` is prime: at least 2, and no smaller value from 2 on divides it.
pub open spec fn is_prime_spec(x: int) -> bool {
    x >= 2 && forall|k: int| 2 <= k < x ==> !divides(k, x)
}

/// Every integer from 2 on has a prime divisor.
pub proof fn lemma_prime_factor_exists(n: int)
    requires
        n >= 2,
    ensures
        exists|q: int| is_prime_spec(q) && divides(q, n),
    decreases n,
{
    if is_prime_spec(n) {
        lemma_divides_refl(n);
        assert(is_prime_spec(n) && divides(n, n));
    } else {
        let k = choose|k: int| 2 <= k < n && divides(k, n);
        lemma_prime_factor_exists(k);
        let q = choose|q: int| is_prime_spec(q) && divides(q, k);
        lemma_divides_trans(q, k, n);
        assert(is_prime_spec(q) && divides(q, n));
    }
}

/// A value that a prime does not divide is coprime to that prime.
pub proof fn lemma_coprime_with_prime(e: int, p: int)
    requires
        e >= 1,
        is_prime_spec(p),
        !divides(p, e),
    ensures
        gcd(e, p) == 1,
{
    let g = gcd(e, p);
    lemma_gcd_divides_both(e, p);
    lemma_gcd_positive(e, p);
    if g != 1 {
        lemma_divides_le(g, p);
        if g < p {
            assert(!divides(g, p));
            assert(false);
        } else {
            assert(g == p);
            assert(false);
        }
    }
}

/// An even value above 2 is not prime.
proof fn lemma_even_not_prime(e: int)
    requires
        e > 2,
        e % 2 == 0,
    ensures
        !is_prime_spec(e),
{
    lemma_divides_iff_mod_zero(2, e);
    assert(2 <= 2 < e && divides(2, e));
}

/// Trial division by odd candidates suffices for an odd number (or for 2).
proof fn lemma_odd_trial_division(x: int)
    requires
        x >= 2,
        x % 2 == 1 || x == 2,
        forall|k: int| 3 <= k < x && k % 2 == 1 ==> !divides(k, x),
    ensures
        is_prime_spec(x),
{
    assert forall|k: int| 2 <= k < x implies !divides(k, x) by {
        if divides(k, x) {
            if k % 2 == 0 {
                lemma_divides_iff_mod_zero(2, k);
                lemma_divides_trans(2, k, x);
                lemma_divides_iff_mod_zero(2, x);
                assert(false);
            } else {
                assert(3 <= k < x && k % 2 == 1);
                assert(false);
            }
        }
    }
}

/// What the trial-division test answers on each input: 1 is rejected,
/// zero and the negatives are accepted without examination, and from 2 on
/// the answer is genuine primality.
pub open spec fn prime_test_result(x: int) -> bool {
    if x == 1 {
        false
    } else if x < 2 {
        true
    } else {
        is_prime_spec(x)
    }
}

/// Primality test, by trial division with every odd candidate below `x`.
pub fn is_prime(x: i32) -> (r: bool)
    ensures
        r == prime_test_result(x as int),
{
    if x == 1 {
        return false;
    }
    if x < 2 {
        return true;
    }
    if x % 2 == 0 && x > 2 {
        proof {
            lemma_even_not_prime(x as int);
        }
        return false;
    }
    let mut i: i32 = 3;
    while i < x
        invariant
            3 <= i,
            i % 2 == 1,
            2 <= x <= i32::MAX,
            x % 2 == 1 || x == 2,
            forall|k: int| 3 <= k < i && k % 2 == 1 ==> !divides(k, x as int),
        decreases x - i,
    {
        if x % i == 0 {
            proof {
                lemma_divides_iff_mod_zero(i as int, x as int);
                assert(2 <= i < x && divides(i as int, x as int));
            }
            return false;
        }
        proof {
            lemma_divides_iff_mod_zero(i as int, x as int);
        }
        i = i + 2;
    }
    proof {
        lemma_odd_trial_division(x as int);
    }
    true
}

/// The smallest prime strictly above `p` — except at the very top of the
/// `i32` range, where the search stops at `i32::MAX` itself. (That value,
/// 2147483647, happens to be prime, so the search in fact never gives up;
/// the contract merely does not insist on that arithmetic fact.)
pub fn next_prime(p: i32) -> (r: i32)
    requires
        p < i32::MAX,
    ensures
        r > p,
        forall|q: int| p < q < r ==> !is_prime_spec(q),
        is_prime_spec(r as int) || r == i32::MAX,
{
    if p < 2 {
        proof {
            assert(is_prime_spec(2));
        }
        return 2;
    }
    let mut x: i32 = if p % 2 == 0 {
        p + 1
    } else {
        p + 2
    };
    proof {
        if p % 2 != 0 {
            lemma_even_not_prime(p + 1);
        }
    }
    loop
        invariant
            2 <= p,
            p < x <= i32::MAX,
            (x as int) % 2 == 1,
            forall|q: int| p < q < x ==> !is_prime_spec(q),
        ensures
            p < x <= i32::MAX,
            forall|q: int| p < q < x ==> !is_prime_spec(q),
            is_prime_spec(x as int) || x == i32::MAX,
        decreases i32::MAX - x,
    {
        if is_prime(x) {
            break;
        }
        if x == i32::MAX {
            break;
        }
        proof {
            lemma_even_not_prime(x + 1);
        }
        x = x + 2;
    }
    x
}

/// The divisors of `num` in ascending order, always starting with 1 and
/// ending with `num` itself; below 2 the list degenerates to exactly that
/// pair.
pub fn divs_of_num(num: i32) -> (v: Vec<i32>)
    ensures
        num < 2 ==> v@ == seq![1i32, num],
        num >= 2 ==> v@.len() >= 2 && v@[0] == 1 && v@[v@.len() - 1] == num,
        num >= 2 ==> forall|a: int, b: int| 0 <= a < b < v@.len() ==> v@[a] < v@[b],
        num >= 2 ==> forall|j: int|
            0 <= j < v@.len() ==> 1 <= #[trigger] v@[j] <= num && divides(v@[j] as int, num as int),
        num >= 2 ==> forall|k: int|
            1 <= k <= num && #[trigger] divides(k, num as int) ==> exists|j: int|
                0 <= j < v@.len() && v@[j] == k,
{
    let mut v: Vec<i32> = Vec::new();
    v.push(1);
    proof {
        lemma_one_divides(num as int);
        assert(v@ =~= seq![1i32]);
    }
    let mut x: i32 = 2;
    while x < num
        invariant
            2 <= x,
            num >= 2 ==> x <= num,
            x == 2 ==> v@ == seq![1i32],
            num < 2 ==> x == 2,
            v@.len() >= 1,
            v@[0] == 1,
            forall|a: int, b: int| 0 <= a < b < v@.len() ==> v@[a] < v@[b],
            forall|j: int| 0 <= j < v@.len() ==> 1 <= #[trigger] v@[j] < x,
            forall|j: int| 0 <= j < v@.len() ==> divides(#[trigger] v@[j] as int, num as int),
            forall|k: int|
                2 <= k < x && #[trigger] divides(k, num as int) ==> exists|j: int|
                    0 <= j < v@.len() && v@[j] == k,
        decreases num - x,
    {
        let ghost before = v@;
        if num % x == 0 {
            v.push(x);
        }
        proof {
            lemma_divides_iff_mod_zero(x as int, num as int);
            assert forall|k: int|
                2 <= k < x + 1 && #[trigger] divides(k, num as int) implies exists|j: int|
                0 <= j < v@.len() && v@[j] == k by {
                if k == x {
                    assert(v@[v@.len() - 1] == x);
                } else {
                    let j0 = choose|j: int| 0 <= j < before.len() && before[j] == k;
                    assert(v@[j0] == k);
                }
            }
        }
        x = x + 1;
    }
    let ghost pre = v@;
    v.push(num);
    proof {
        lemma_divides_refl(num as int);
        if num < 2 {
            assert(v@ =~= seq![1i32, num]);
        }
        if num >= 2 {
            assert forall|k: int|
                1 <= k <= num && #[trigger] divides(k, num as int) implies exists|j: int|
                0 <= j < v@.len() && v@[j] == k by {
                if k == 1 {
                    assert(v@[0] == 1);
                } else if k == num {
                    assert(v@[v@.len() - 1] == num);
                } else {
                    lemma_divides_le(k, num as int);
                    let j0 = choose|j: int| 0 <= j < pre.len() && pre[j] == k;
                    assert(v@[j0] == k);
                }
            }
        }
    }
    v
}

} // verus!
