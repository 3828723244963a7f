//! Divisibility, greatest common divisors and least common multiples:
//! the specification-level number theory behind the fraction contracts.

use vstd::arithmetic::div_mod::lemma_fundamental_div_mod;
use vstd::prelude::*;

verus! {

/// `d` divides `n`: `n` is an integer multiple of `d`.
pub open spec fn divides(d: int, n: int) -> bool {
    exists|k: int| n == #[trigger] (d * k)
}

/// Greatest common divisor by the Euclidean algorithm, for nonnegative
/// arguments.
pub open spec fn gcd(a: int, b: int) -> int
    recommends
        a >= 0,
        b >= 0,
    decreases b when b >= 0
{
    if b <= 0 {
        a
    } else {
        gcd(b, a % b)
    }
}

pub proof fn lemma_divides_refl(a: int)
    ensures
        divides(a, a),
{
    assert(a == a * 1);
}

pub proof fn lemma_one_divides(n: int)
    ensures
        divides(1, n),
{
    assert(n == 1 * n);
}

pub proof fn lemma_divides_trans(a: int, b: int, c: int)
    requires
        divides(a, b),
        divides(b, c),
    ensures
        divides(a, c),
{
    let k1 = choose|k: int| b == #[trigger] (a * k);
    let k2 = choose|k: int| c == #[trigger] (b * k);
    assert(c == a * (k1 * k2)) by (nonlinear_arith)
        requires
            b == a * k1,
            c == b * k2,
    ;
}

pub proof fn lemma_divides_mul_right(d: int, n: int, c: int)
    requires
        divides(d, n),
    ensures
        divides(d, n * c),
{
    let k = choose|k: int| n == #[trigger] (d * k);
    assert(n * c == d * (k * c)) by (nonlinear_arith)
        requires
            n == d * k,
    ;
}

pub proof fn lemma_divides_add(d: int, x: int, y: int)
    requires
        divides(d, x),
        divides(d, y),
    ensures
        divides(d, x + y),
{
    let k1 = choose|k: int| x == #[trigger] (d * k);
    let k2 = choose|k: int| y == #[trigger] (d * k);
    assert(x + y == d * (k1 + k2)) by (nonlinear_arith)
        requires
            x == d * k1,
            y == d * k2,
    ;
}

pub proof fn lemma_divides_le(d: int, n: int)
    requires
        d >= 1,
        n >= 1,
        divides(d, n),
    ensures
        d <= n,
{
    let k = choose|k: int| n == #[trigger] (d * k);
    assert(d <= n) by (nonlinear_arith)
        requires
            d >= 1,
            n >= 1,
            n == d * k,
    ;
}

/// For a positive divisor, divisibility coincides with a zero remainder.
pub proof fn lemma_divides_iff_mod_zero(d: int, n: int)
    requires
        d >= 1,
    ensures
        divides(d, n) <==> n % d == 0,
{
    lemma_fundamental_div_mod(n, d);
    if divides(d, n) {
        let k = choose|k: int| n == #[trigger] (d * k);
        assert(n % d == n - d * (n / d));
        assert((d * k) % d == 0) by (nonlinear_arith)
            requires
                d >= 1,
        ;
    } else {
        assert(n == d * (n / d) + n % d);
    }
}

/// For a positive divisor, the quotient recovers the cofactor exactly.
pub proof fn lemma_exact_division(d: int, n: int)
    requires
        d >= 1,
        divides(d, n),
    ensures
        n == d * (n / d),
{
    lemma_divides_iff_mod_zero(d, n);
    lemma_fundamental_div_mod(n, d);
}

pub proof fn lemma_divides_antisymmetric(a: int, b: int)
    requires
        a >= 1,
        b >= 1,
        divides(a, b),
        divides(b, a),
    ensures
        a == b,
{
    lemma_divides_le(a, b);
    lemma_divides_le(b, a);
}

/// The Euclidean gcd divides both of its arguments.
pub proof fn lemma_gcd_divides_both(a: int, b: int)
    requires
        a >= 0,
        b >= 0,
    ensures
        divides(gcd(a, b), a),
        divides(gcd(a, b), b),
    decreases b,
{
    if b == 0 {
        lemma_divides_refl(a);
        assert(0 == gcd(a, b) * 0);
    } else {
        let r = a % b;
        lemma_fundamental_div_mod(a, b);
        lemma_gcd_divides_both(b, r);
        let g = gcd(a, b);
        lemma_divides_mul_right(g, b, a / b);
        assert(a == b * (a / b) + r);
        lemma_divides_add(g, b * (a / b), r);
    }
}

pub proof fn lemma_gcd_positive(a: int, b: int)
    requires
        a >= 1,
        b >= 0,
    ensures
        gcd(a, b) >= 1,
    decreases b,
{
    if b == 0 {
    } else {
        lemma_gcd_positive(b, a % b);
    }
}

/// Bezout's identity: the gcd is an integer combination of its arguments.
pub proof fn lemma_bezout(a: int, b: int)
    requires
        a >= 0,
        b >= 0,
    ensures
        exists|x: int, y: int| gcd(a, b) == #[trigger] (a * x) + #[trigger] (b * y),
    decreases b,
{
    if b == 0 {
        assert(gcd(a, b) == a * 1 + b * 0);
    } else {
        let q = a / b;
        let r = a % b;
        lemma_fundamental_div_mod(a, b);
        lemma_bezout(b, r);
        let (x0, y0) = choose|x: int, y: int| gcd(b, r) == #[trigger] (b * x) + #[trigger] (r * y);
        assert(gcd(a, b) == a * y0 + b * (x0 - q * y0)) by (nonlinear_arith)
            requires
                gcd(a, b) == b * x0 + r * y0,
                a == b * q + r,
        ;
    }
}

/// Every common divisor divides the gcd.
pub proof fn lemma_common_divisor_divides_gcd(a: int, b: int, c: int)
    requires
        a >= 0,
        b >= 0,
        divides(c, a),
        divides(c, b),
    ensures
        divides(c, gcd(a, b)),
{
    lemma_bezout(a, b);
    let (x, y) = choose|x: int, y: int| gcd(a, b) == #[trigger] (a * x) + #[trigger] (b * y);
    lemma_divides_mul_right(c, a, x);
    lemma_divides_mul_right(c, b, y);
    lemma_divides_add(c, a * x, b * y);
}

/// Gauss's lemma: a factor coprime to `b` that divides `b * c` divides `c`.
pub proof fn lemma_coprime_divides(a: int, b: int, c: int)
    requires
        a >= 1,
        b >= 0,
        gcd(a, b) == 1,
        divides(a, b * c),
    ensures
        divides(a, c),
{
    lemma_bezout(a, b);
    let (x, y) = choose|x: int, y: int| gcd(a, b) == #[trigger] (a * x) + #[trigger] (b * y);
    let t = choose|k: int| b * c == #[trigger] (a * k);
    assert(c == a * (x * c + t * y)) by (nonlinear_arith)
        requires
            1 == a * x + b * y,
            b * c == a * t,
    ;
}

pub proof fn lemma_gcd_symmetric(a: int, b: int)
    requires
        a >= 1,
        b >= 1,
    ensures
        gcd(a, b) == gcd(b, a),
{
    lemma_gcd_divides_both(a, b);
    lemma_gcd_divides_both(b, a);
    lemma_gcd_positive(a, b);
    lemma_gcd_positive(b, a);
    lemma_common_divisor_divides_gcd(b, a, gcd(a, b));
    lemma_common_divisor_divides_gcd(a, b, gcd(b, a));
    lemma_divides_antisymmetric(gcd(a, b), gcd(b, a));
}

/// Least common multiple of two positive values.
pub open spec fn lcm2(a: int, b: int) -> int {
    (a / gcd(a, b)) * b
}

/// Dividing two positive values by their gcd leaves coprime parts.
pub proof fn lemma_coprime_parts(a: int, b: int)
    requires
        a >= 1,
        b >= 1,
    ensures
        gcd(a / gcd(a, b), b / gcd(a, b)) == 1,
{
    let g = gcd(a, b);
    lemma_gcd_positive(a, b);
    lemma_gcd_divides_both(a, b);
    lemma_exact_division(g, a);
    lemma_exact_division(g, b);
    let a1 = a / g;
    let b1 = b / g;
    assert(a1 >= 1 && b1 >= 1) by (nonlinear_arith)
        requires
            a == g * a1,
            b == g * b1,
            g >= 1,
            a >= 1,
            b >= 1,
    ;
    let c = gcd(a1, b1);
    lemma_gcd_positive(a1, b1);
    lemma_gcd_divides_both(a1, b1);
    if c != 1 {
        let u = choose|k: int| a1 == #[trigger] (c * k);
        let v = choose|k: int| b1 == #[trigger] (c * k);
        assert(a == (g * c) * u && b == (g * c) * v) by (nonlinear_arith)
            requires
                a == g * a1,
                b == g * b1,
                a1 == c * u,
                b1 == c * v,
        ;
        lemma_common_divisor_divides_gcd(a, b, g * c);
        assert(g * c >= 2) by (nonlinear_arith)
            requires
                g >= 1,
                c >= 2,
        ;
        lemma_divides_le(g * c, g);
        assert(false) by (nonlinear_arith)
            requires
                g * c <= g,
                g >= 1,
                c >= 2,
        ;
    }
}

pub proof fn lemma_lcm2_properties(a: int, b: int)
    requires
        a >= 1,
        b >= 1,
    ensures
        lcm2(a, b) >= 1,
        divides(a, lcm2(a, b)),
        divides(b, lcm2(a, b)),
{
    let g = gcd(a, b);
    lemma_gcd_positive(a, b);
    lemma_gcd_divides_both(a, b);
    lemma_exact_division(g, a);
    lemma_exact_division(g, b);
    let a1 = a / g;
    let b1 = b / g;
    assert(a1 >= 1) by (nonlinear_arith)
        requires
            a == g * a1,
            g >= 1,
            a >= 1,
    ;
    assert(lcm2(a, b) == a1 * b);
    assert(a1 * b >= 1) by (nonlinear_arith)
        requires
            a1 >= 1,
            b >= 1,
    ;
    assert(a1 * b == b * a1);
    assert(a1 * b == a * b1) by (nonlinear_arith)
        requires
            a == g * a1,
            b == g * b1,
    ;
}

/// The least common multiple divides every common multiple.
pub proof fn lemma_lcm2_least(a: int, b: int, m: int)
    requires
        a >= 1,
        b >= 1,
        divides(a, m),
        divides(b, m),
    ensures
        divides(lcm2(a, b), m),
{
    let g = gcd(a, b);
    lemma_gcd_positive(a, b);
    lemma_gcd_divides_both(a, b);
    lemma_exact_division(g, a);
    lemma_exact_division(g, b);
    let a1 = a / g;
    let b1 = b / g;
    assert(a1 >= 1 && b1 >= 1) by (nonlinear_arith)
        requires
            a == g * a1,
            b == g * b1,
            g >= 1,
            a >= 1,
            b >= 1,
    ;
    lemma_coprime_parts(a, b);
    lemma_gcd_symmetric(a1, b1);
    let u = choose|k: int| m == #[trigger] (a * k);
    let t = choose|k: int| m == #[trigger] (b * k);
    assert(b1 * t == a1 * u) by (nonlinear_arith)
        requires
            m == a * u,
            m == b * t,
            a == g * a1,
            b == g * b1,
            g >= 1,
    ;
    assert(divides(b1, a1 * u)) by {
        assert(a1 * u == b1 * t);
    }
    lemma_coprime_divides(b1, a1, u);
    let v = choose|k: int| u == #[trigger] (b1 * k);
    assert(m == (a1 * b) * v) by (nonlinear_arith)
        requires
            m == a * u,
            u == b1 * v,
            a == g * a1,
            b == g * b1,
    ;
    assert(lcm2(a, b) == a1 * b);
}

/// The defining product identity: lcm times gcd gives the plain product.
pub proof fn lemma_lcm2_times_gcd(a: int, b: int)
    requires
        a >= 1,
        b >= 1,
    ensures
        lcm2(a, b) * gcd(a, b) == a * b,
{
    let g = gcd(a, b);
    lemma_gcd_positive(a, b);
    lemma_gcd_divides_both(a, b);
    lemma_exact_division(g, a);
    let a1 = a / g;
    assert(lcm2(a, b) == a1 * b);
    assert((a1 * b) * g == a * b) by (nonlinear_arith)
        requires
            a == g * a1,
    ;
}

/// Every entry of the sequence divides `m`.
pub open spec fn all_divide(s: Seq<int>, m: int) -> bool {
    forall|i: int| 0 <= i < s.len() ==> divides(#[trigger] s[i], m)
}

pub open spec fn all_positive(s: Seq<int>) -> bool {
    forall|i: int| 0 <= i < s.len() ==> #[trigger] s[i] >= 1
}

/// `r` is the least common multiple of the entries of `s`: a positive
/// common multiple that divides every positive common multiple.
pub open spec fn is_lcm(s: Seq<int>, r: int) -> bool {
    &&& r >= 1
    &&& all_divide(s, r)
    &&& forall|m: int| m >= 1 && #[trigger] all_divide(s, m) ==> divides(r, m)
}

/// Least common multiple of a sequence, folded up with `lcm2`; the empty
/// sequence has least common multiple 1.
pub open spec fn seq_lcm(s: Seq<int>) -> int
    decreases s.len(),
{
    if s.len() == 0 {
        1
    } else {
        lcm2(seq_lcm(s.drop_last()), s.last())
    }
}

pub proof fn lemma_seq_lcm_is_lcm(s: Seq<int>)
    requires
        all_positive(s),
    ensures
        seq_lcm(s) >= 1,
        is_lcm(s, seq_lcm(s)),
    decreases s.len(),
{
    if s.len() == 0 {
        assert forall|m: int| m >= 1 && #[trigger] all_divide(s, m) implies divides(1, m) by {
            lemma_one_divides(m);
        }
    } else {
        let t = s.drop_last();
        let x = s.last();
        assert(all_positive(t)) by {
            assert(forall|i: int| 0 <= i < t.len() ==> t[i] == s[i]);
        }
        lemma_seq_lcm_is_lcm(t);
        let l0 = seq_lcm(t);
        lemma_lcm2_properties(l0, x);
        let l = lcm2(l0, x);
        assert forall|i: int| 0 <= i < s.len() implies divides(#[trigger] s[i], l) by {
            if i < s.len() - 1 {
                assert(t[i] == s[i]);
                assert(divides(t[i], l0));
                lemma_divides_trans(s[i], l0, l);
            } else {
                assert(s[i] == x);
            }
        }
        assert forall|m: int| m >= 1 && #[trigger] all_divide(s, m) implies divides(l, m) by {
            assert forall|i: int| 0 <= i < t.len() implies divides(#[trigger] t[i], m) by {
                assert(t[i] == s[i]);
            }
            assert(all_divide(t, m));
            assert(divides(x, m)) by {
                assert(s[s.len() - 1] == x);
            }
            assert(divides(l0, m));
            lemma_lcm2_least(l0, x, m);
        }
    }
}

proof fn lemma_gcd_one_left(x: int)
    requires
        x >= 1,
    ensures
        gcd(1, x) == 1,
{
    if x == 1 {
        assert(gcd(1, 1) == gcd(1, 0));
    } else {
        assert(1int % x == 1) by (nonlinear_arith)
            requires
                x >= 2,
        ;
        assert(x % 1int == 0) by (nonlinear_arith);
        assert(gcd(1, x) == gcd(x, 1));
        assert(gcd(x, 1) == gcd(1, 0));
    }
}

/// On a two-entry sequence the folded least common multiple is just the
/// two-argument one.
pub proof fn lemma_seq_lcm_pair(a: int, b: int)
    requires
        a >= 1,
        b >= 1,
    ensures
        seq_lcm(seq![a, b]) == lcm2(a, b),
{
    let s = seq![a, b];
    let s1 = seq![a];
    assert(s.drop_last() =~= s1);
    assert(s1.drop_last() =~= Seq::<int>::empty());
    assert(seq_lcm(Seq::<int>::empty()) == 1);
    lemma_gcd_one_left(a);
    assert(lcm2(1, a) == (1int / 1int) * a);
    assert(1int / 1int == 1) by (nonlinear_arith);
    assert(seq_lcm(s1) == a);
    assert(seq_lcm(s) == lcm2(a, b));
}

/// The least common multiple of two positive values, times their greatest
/// common divisor, is exactly their product.
pub proof fn lemma_lcm_times_gcd(a: int, b: int)
    requires
        a >= 1,
        b >= 1,
    ensures
        seq_lcm(seq![a, b]) * gcd(a, b) == a * b,
{
    lemma_seq_lcm_pair(a, b);
    lemma_lcm2_times_gcd(a, b);
}

pub proof fn lemma_is_lcm_unique(s: Seq<int>, r1: int, r2: int)
    requires
        is_lcm(s, r1),
        is_lcm(s, r2),
    ensures
        r1 == r2,
{
    assert(divides(r1, r2));
    assert(divides(r2, r1));
    lemma_divides_antisymmetric(r1, r2);
}

/// Quotient of Rust's truncating division by a positive divisor; it
/// rounds toward zero where the Euclidean `/` rounds down.
pub open spec fn div_trunc(a: int, b: int) -> int
    recommends
        b >= 1,
{
    if a >= 0 {
        a / b
    } else {
        -((-a) / b)
    }
}

/// Remainder of Rust's truncating division by a positive divisor; it
/// carries the sign of the dividend.
pub open spec fn mod_trunc(a: int, b: int) -> int
    recommends
        b >= 1,
{
    if a >= 0 {
        a % b
    } else {
        -((-a) % b)
    }
}

/// An exact division by a positive divisor truncates nothing: the
/// truncating quotient agrees with the Euclidean one.
pub proof fn lemma_div_trunc_exact(a: int, b: int)
    requires
        b >= 1,
        divides(b, a),
    ensures
        div_trunc(a, b) == a / b,
        a == b * (a / b),
{
    lemma_exact_division(b, a);
    if a < 0 {
        let k = choose|k: int| a == #[trigger] (b * k);
        assert(-a == b * (-k)) by (nonlinear_arith)
            requires
                a == b * k,
        ;
        lemma_exact_division(b, -a);
        assert(a / b == -((-a) / b)) by (nonlinear_arith)
            requires
                b >= 1,
                a == b * (a / b),
                -a == b * ((-a) / b),
        ;
    }
}

/// The fundamental identity of truncating division.
pub proof fn lemma_trunc_fundamental(a: int, b: int)
    requires
        b >= 1,
    ensures
        a == b * div_trunc(a, b) + mod_trunc(a, b),
        -b < mod_trunc(a, b) < b,
{
    if a >= 0 {
        lemma_fundamental_div_mod(a, b);
    } else {
        lemma_fundamental_div_mod(-a, b);
        let q = (-a) / b;
        assert(-a == b * q + (-a) % b);
        assert(b * -q == -(b * q)) by (nonlinear_arith);
    }
}

} // verus!
