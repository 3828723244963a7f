use fractions::fraction::{lcm, Fraction, FractionMixed};

#[test]
fn lcm_test1() {
    let mut x = vec![5, 2];
    assert_eq!(10, lcm(&mut x));
}

#[test]
fn lcm_test2() {
    let mut x = vec![4, 5, 9, 12, 15];
    assert_eq!(180, lcm(&mut x));
}

#[test]
fn apply_lcm_test1() {
    let mut f = Fraction { n: 10, d: 15 };
    f.apply_lcm(180);
    assert_eq!(f, Fraction { n: 120, d: 180 });
}

#[test]
fn simplify_test1() {
    let mut f = Fraction { n: 10, d: 15 };
    f.simplify();
    assert_eq!(f, Fraction { n: 2, d: 3 });
}

#[test]
fn simplify_test2() {
    let mut f = Fraction { n: 3, d: 18 };
    f.simplify();
    assert_eq!(f, Fraction { n: 1, d: 6 });
}

#[test]
fn fraction_sum_test1() {
    let mut f1 = Fraction { n: 3, d: 15 };
    let f2 = Fraction { n: 7, d: 15 };
    f1.sum(&f2);
    assert_eq!(f1, Fraction { n: 10, d: 15 });
}

#[test]
fn fraction_sum_test2_d_diff() {
    let mut f1 = Fraction { n: 5, d: 6 };
    let f2 = Fraction { n: 1, d: 4 };
    f1.sum(&f2);
    assert_eq!(f1, Fraction { n: 13, d: 12 });
}

#[test]
fn fraction_sum_test3_d_diff() {
    let mut f1 = Fraction { n: 9, d: 10 };
    let f2 = Fraction { n: 1, d: 6 };
    f1.sum(&f2);
    assert_eq!(f1, Fraction { n: 32, d: 30 });
}

#[test]
fn fraction_sum_test4_d_diff() {
    let mut f1 = Fraction { n: 1, d: 2 };
    let f2 = Fraction { n: 11, d: 12 };
    f1.sum(&f2);
    assert_eq!(f1, Fraction { n: 17, d: 12 });
}

#[test]
fn fraction_sum_test5_d_diff() {
    let mut f1 = Fraction { n: 3, d: 4 };
    let f2 = Fraction { n: 1, d: 5 };
    f1.sum(&f2);
    assert_eq!(f1, Fraction { n: 19, d: 20 });
}

#[test]
fn fraction_sub_test1() {
    let mut f1 = Fraction { n: 8, d: 18 };
    let f2 = Fraction { n: 5, d: 18 };
    f1.sub(&f2);
    assert_eq!(f1, Fraction { n: 3, d: 18 });
}

#[test]
fn fraction_sub_test2_d_diff() {
    let mut f1 = Fraction { n: 3, d: 4 };
    let f2 = Fraction { n: 5, d: 8 };
    f1.sub(&f2);
    assert_eq!(f1, Fraction { n: 1, d: 8 });
}

#[test]
fn fraction_sub_test3_d_diff() {
    let mut f1 = Fraction { n: 4, d: 3 };
    let f2 = Fraction { n: 1, d: 5 };
    f1.sub(&f2);
    assert_eq!(f1, Fraction { n: 17, d: 15 });
}

#[test]
fn fraction_sub_test4_d_diff() {
    let mut f1 = Fraction { n: 7, d: 10 };
    let f2 = Fraction { n: 5, d: 8 };
    f1.sub(&f2);
    assert_eq!(f1, Fraction { n: 3, d: 40 });
}

#[test]
fn fraction_sum_sub_test1() {
    let mut f1 = Fraction { n: 1, d: 4 };
    let f2 = Fraction { n: 3, d: 5 };
    let f3 = Fraction { n: 3, d: 10 };
    f1.sum(&f2);
    f1.sub(&f3);
    assert_eq!(f1, Fraction { n: 11, d: 20 });
}

#[test]
fn fraction_sub_sum_test1() {
    let mut f1 = Fraction { n: 4, d: 9 };
    let f2 = Fraction { n: 1, d: 6 };
    let f3 = Fraction { n: 1, d: 3 };
    f1.sub(&f2);
    f1.sum(&f3);
    assert_eq!(f1, Fraction { n: 11, d: 18 });
}

#[test]
fn fraction_mul_int_test1() {
    let mut f1 = Fraction { n: 2, d: 5 };
    f1.mul_int(3);
    assert_eq!(f1, Fraction { n: 6, d: 5 });
}

#[test]
fn fraction_mul_test1() {
    let mut f1 = Fraction { n: 1, d: 2 };
    let f2 = Fraction { n: 1, d: 4 };
    f1.mul(&f2);
    assert_eq!(f1, Fraction { n: 1, d: 8 });
}

#[test]
fn fraction_div_test1() {
    let mut f1 = Fraction { n: 8, d: 3 };
    let f2 = Fraction { n: 1, d: 3 };

    f1.div(&f2);

    assert_eq!(f1, Fraction { n: 8, d: 1 });
}

#[test]
fn fraction_div_test2() {
    let mut f1 = Fraction { n: 8, d: 3 };
    let f2 = Fraction { n: 2, d: 3 };

    f1.div(&f2);

    assert_eq!(f1, Fraction { n: 4, d: 1 });
}

#[test]
fn fraction_div_test3() {
    let mut f1 = Fraction { n: 8, d: 3 };
    let f2 = Fraction { n: 3, d: 3 };

    f1.div(&f2);

    assert_eq!(f1, Fraction { n: 8, d: 3 });
}

#[test]
fn fraction_div_test4() {
    let mut f1 = Fraction { n: 2, d: 5 };
    let f2 = Fraction { n: 7, d: 3 };

    f1.div(&f2);

    assert_eq!(f1, Fraction { n: 6, d: 35 });
}

#[test]
fn fraction_div_test5() {
    let mut f1 = Fraction { n: 3, d: 5 };
    let f2 = Fraction { n: 1, d: 2 };

    f1.div(&f2);
    let fm = f1.get_fraction_mixed();

    assert_eq!(f1, Fraction { n: 6, d: 5 });
    assert_eq!(fm, FractionMixed { num_improprio: 1, fracao: Fraction { n: 1, d: 5 } })
}

#[test]
fn get_fraction_test1() {
    let fm = FractionMixed { num_improprio: 5, fracao: Fraction { n: 1, d: 4 } };
    let f = fm.get_fraction();
    assert_eq!(f, Fraction { n: 21, d: 4 });
}

#[test]
fn get_fraction_mixed_test1() {
    let f = Fraction { n: 21, d: 4 };
    let fm = f.get_fraction_mixed();
    assert_eq!(fm, FractionMixed { num_improprio: 5, fracao: Fraction { n: 1, d: 4 } })
}

#[test]
fn get_fraction_mixed_test2() {
    let f = Fraction { n: 7, d: 4 };
    let fm = f.get_fraction_mixed();
    assert_eq!(fm, FractionMixed { num_improprio: 1, fracao: Fraction { n: 3, d: 4 } })
}

#[test]
fn fraction_mixed_sum_test1() {
    let mut fm1 = FractionMixed { num_improprio: 3, fracao: Fraction { n: 3, d: 5 } };
    let fm2 = FractionMixed { num_improprio: 5, fracao: Fraction { n: 4, d: 5 } };
    fm1.sum(&fm2);
    assert_eq!(fm1, FractionMixed { num_improprio: 9, fracao: Fraction { n: 2, d: 5 } })
}

#[test]
fn fraction_mixed_sum_test2() {
    let mut fm1 = FractionMixed { num_improprio: 2, fracao: Fraction { n: 4, d: 7 } };
    let fm2 = FractionMixed { num_improprio: 3, fracao: Fraction { n: 2, d: 7 } };
    fm1.sum(&fm2);
    assert_eq!(fm1, FractionMixed { num_improprio: 5, fracao: Fraction { n: 6, d: 7 } })
}

#[test]
fn fraction_mixed_sum_test3() {
    let mut fm1 = FractionMixed { num_improprio: 19, fracao: Fraction { n: 3, d: 18 } };
    let fm2 = FractionMixed { num_improprio: 18, fracao: Fraction { n: 2, d: 3 } };
    fm1.sum(&fm2);
    assert_eq!(fm1, FractionMixed { num_improprio: 37, fracao: Fraction { n: 15, d: 18 } })
}

#[test]
fn fraction_mixed_sub_test1() {
    let mut fm1 = FractionMixed { num_improprio: 2, fracao: Fraction { n: 5, d: 8 } };
    let fm2 = FractionMixed { num_improprio: 1, fracao: Fraction { n: 2, d: 8 } };
    fm1.sub(&fm2);
    assert_eq!(fm1, FractionMixed { num_improprio: 1, fracao: Fraction { n: 3, d: 8 } })
}

#[test]
fn fraction_mixed_sub_test4() {
    let mut fm1 = FractionMixed { num_improprio: 9, fracao: Fraction { n: 2, d: 8 } };
    let fm2 = FractionMixed { num_improprio: 6, fracao: Fraction { n: 1, d: 8 } };
    fm1.sub(&fm2);
    assert_eq!(fm1, FractionMixed { num_improprio: 3, fracao: Fraction { n: 1, d: 8 } })
}

#[test]
fn fraction_mixed_sub_test5() {
    let mut fm1 = FractionMixed { num_improprio: 7, fracao: Fraction { n: 6, d: 9 } };
    let fm2 = FractionMixed { num_improprio: 3, fracao: Fraction { n: 2, d: 5 } };
    fm1.sub(&fm2);
    assert_eq!(fm1, FractionMixed { num_improprio: 4, fracao: Fraction { n: 12, d: 45 } })
}

#[test]
fn fraction_mixed_mul_test1() {
    let mut fm1 = FractionMixed { num_improprio: 1, fracao: Fraction { n: 3, d: 4 } };
    let fm2 = FractionMixed { num_improprio: 7, fracao: Fraction { n: 1, d: 5 } };

    fm1.mul(&fm2);

    assert_eq!(fm1, FractionMixed { num_improprio: 12, fracao: Fraction { n: 3, d: 5 } })
}

#[test]
fn fraction_mixed_mul_test2() {
    let mut fm1 = FractionMixed { num_improprio: 3, fracao: Fraction { n: 3, d: 7 } };
    let fm2 = FractionMixed { num_improprio: 0, fracao: Fraction { n: 2, d: 1 } };

    fm1.mul(&fm2);

    let f1 = fm1.get_fraction();

    assert_eq!(fm1, FractionMixed { num_improprio: 6, fracao: Fraction { n: 6, d: 7 } });
    assert_eq!(f1, Fraction { n: 48, d: 7 });
}

#[test]
fn fraction_mixed_mul_test3() {
    let mut fm1 = FractionMixed { num_improprio: 1, fracao: Fraction { n: 1, d: 3 } };
    let fm2 = FractionMixed { num_improprio: 0, fracao: Fraction { n: 6, d: 7 } };

    fm1.mul(&fm2);

    let f1 = fm1.get_fraction();

    assert_eq!(fm1, FractionMixed { num_improprio: 1, fracao: Fraction { n: 1, d: 7 } });
    assert_eq!(f1, Fraction { n: 8, d: 7 });
}

#[test]
fn fraction_mixed_mul_test4() {
    let mut fm1 = FractionMixed { num_improprio: 3, fracao: Fraction { n: 1, d: 2 } };
    let fm2 = FractionMixed { num_improprio: 3, fracao: Fraction { n: 1, d: 2 } };

    fm1.mul(&fm2);

    let f1 = fm1.get_fraction();

    assert_eq!(fm1, FractionMixed { num_improprio: 12, fracao: Fraction { n: 1, d: 4 } });
    assert_eq!(f1, Fraction { n: 49, d: 4 });
}

#[test]
fn fraction_mixed_mul_test5() {
    let mut fm1 = FractionMixed { num_improprio: 4, fracao: Fraction { n: 1, d: 1 } };
    let fm2 = FractionMixed { num_improprio: 1, fracao: Fraction { n: 3, d: 4 } };

    fm1.mul(&fm2);

    let f1 = fm1.get_fraction();

    assert_eq!(fm1, FractionMixed { num_improprio: 8, fracao: Fraction { n: 3, d: 4 } });
    assert_eq!(f1, Fraction { n: 35, d: 4 });
}

#[test]
fn fraction_mixed_div_test1() {
    let mut fm1 = FractionMixed { num_improprio: 3, fracao: Fraction { n: 3, d: 8 } };
    let fm2 = FractionMixed { num_improprio: 0, fracao: Fraction { n: 9, d: 1 } };

    fm1.div(&fm2);

    let f1 = fm1.get_fraction();

    assert_eq!(fm1, FractionMixed { num_improprio: 0, fracao: Fraction { n: 3, d: 8 } });
    assert_eq!(f1, Fraction { n: 3, d: 8 });
}

#[test]
fn fraction_mixed_div_test2() {
    let mut fm1 = FractionMixed { num_improprio: 0, fracao: Fraction { n: 8, d: 1 } };
    let fm2 = FractionMixed { num_improprio: 1, fracao: Fraction { n: 4, d: 5 } };

    fm1.div(&fm2);

    let f1 = fm1.get_fraction();

    assert_eq!(fm1, FractionMixed { num_improprio: 4, fracao: Fraction { n: 4, d: 9 } });
    assert_eq!(f1, Fraction { n: 40, d: 9 });
}

#[test]
fn fraction_mixed_div_test3() {
    let mut fm1 = FractionMixed { num_improprio: 0, fracao: Fraction { n: 5, d: 8 } };
    let fm2 = FractionMixed { num_improprio: 1, fracao: Fraction { n: 1, d: 3 } };

    fm1.div(&fm2);

    let f1 = fm1.get_fraction();

    assert_eq!(fm1, FractionMixed { num_improprio: 0, fracao: Fraction { n: 15, d: 32 } });
    assert_eq!(f1, Fraction { n: 15, d: 32 });
}

#[test]
fn fraction_mixed_div_test4() {
    let mut fm1 = FractionMixed { num_improprio: 1, fracao: Fraction { n: 7, d: 9 } };
    let fm2 = FractionMixed { num_improprio: 0, fracao: Fraction { n: 4, d: 5 } };

    fm1.div(&fm2);

    let f1 = fm1.get_fraction();

    assert_eq!(fm1, FractionMixed { num_improprio: 2, fracao: Fraction { n: 2, d: 9 } });
    assert_eq!(f1, Fraction { n: 20, d: 9 });
}

#[test]
fn lcm_gcd_product_check() {
    // The least common multiple times the greatest common divisor gives
    // back the plain product.
    let cases = [(5, 2), (4, 6), (12, 18), (7, 7), (1, 9), (100, 75)];
    for (a, b) in cases {
        let mut x = vec![a, b];
        let l = lcm(&mut x);
        let mut g = 0;
        for c in 1..=a.min(b) {
            if a % c == 0 && b % c == 0 {
                g = c;
            }
        }
        assert_eq!(l * g, a * b);
    }
}

#[test]
fn lcm_of_empty_list_is_one() {
    let mut x: Vec<i32> = vec![];
    assert_eq!(1, lcm(&mut x));
}

#[test]
fn lcm_of_single_value() {
    let mut x = vec![7];
    assert_eq!(7, lcm(&mut x));
}

#[test]
fn lcm_consumes_its_list() {
    let mut x = vec![4, 5, 9, 12, 15];
    lcm(&mut x);
    assert_eq!(x, vec![1, 1, 1, 1, 1]);
}

#[test]
fn lcm_of_equal_values() {
    let mut x = vec![6, 6];
    assert_eq!(6, lcm(&mut x));
}

#[test]
fn simplify_is_idempotent() {
    let cases = [(10, 15), (3, 18), (49, 14), (36, 36), (17, 31), (0, 6), (-4, 6)];
    for (n, d) in cases {
        let mut once = Fraction { n, d };
        once.simplify();
        let mut twice = once;
        twice.simplify();
        assert_eq!(twice, once);
    }
}

#[test]
fn simplify_leaves_prime_pair_alone() {
    // Both entries prime stops the sweep at once, even with a shared factor.
    let mut f = Fraction { n: 3, d: 3 };
    f.simplify();
    assert_eq!(f, Fraction { n: 3, d: 3 });
}

#[test]
fn mixed_round_trip_returns_the_fraction() {
    let cases = [(21, 4), (7, 4), (-7, 4), (0, 9), (5, 5), (-12, 5)];
    for (n, d) in cases {
        let f = Fraction { n, d };
        let g = f.get_fraction_mixed().get_fraction();
        assert_eq!(g, f);
    }
}

#[test]
fn sub_takes_absolute_difference_over_equal_denominators() {
    // The minuend is smaller; the result is still the positive difference.
    let mut f1 = Fraction { n: 5, d: 18 };
    let f2 = Fraction { n: 8, d: 18 };
    f1.sub(&f2);
    assert_eq!(f1, Fraction { n: 3, d: 18 });
}

#[test]
fn sub_takes_absolute_difference_over_distinct_denominators() {
    // The same policy holds after unifying denominators.
    let mut f1 = Fraction { n: 1, d: 5 };
    let f2 = Fraction { n: 4, d: 3 };
    f1.sub(&f2);
    assert_eq!(f1, Fraction { n: 17, d: 15 });
}

#[test]
fn sum_keeps_equal_numerator_and_denominator_uncarried() {
    // A fractional part equal to its denominator is not carried: the
    // carry fires only on a strict excess.
    let mut fm1 = FractionMixed { num_improprio: 1, fracao: Fraction { n: 2, d: 5 } };
    let fm2 = FractionMixed { num_improprio: 1, fracao: Fraction { n: 3, d: 5 } };
    fm1.sum(&fm2);
    assert_eq!(fm1, FractionMixed { num_improprio: 2, fracao: Fraction { n: 5, d: 5 } });
}
