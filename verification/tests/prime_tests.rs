use fractions::prime::{divs_of_num, is_prime, next_prime};

#[test]
fn divs_of_num_test1() {
    assert_eq!(divs_of_num(120), vec![1, 2, 3, 4, 5, 6, 8, 10, 12, 15, 20, 24, 30, 40, 60, 120]);
}

#[test]
fn divs_of_num_test2() {
    assert_eq!(divs_of_num(48), vec![1, 2, 3, 4, 6, 8, 12, 16, 24, 48]);
}

#[test]
fn divs_of_num_test3() {
    assert_eq!(divs_of_num(56), vec![1, 2, 4, 7, 8, 14, 28, 56]);
}

#[test]
fn divs_of_num_degenerates_below_two() {
    assert_eq!(divs_of_num(1), vec![1, 1]);
    assert_eq!(divs_of_num(0), vec![1, 0]);
}

#[test]
fn divs_of_prime_is_just_the_pair() {
    assert_eq!(divs_of_num(13), vec![1, 13]);
}

#[test]
fn is_prime_matches_trial_division_up_to_ten_thousand() {
    for x in 2..=10000 {
        let mut composite = false;
        for k in 2..x {
            if x % k == 0 {
                composite = true;
            }
        }
        assert_eq!(is_prime(x), !composite);
    }
}

#[test]
fn is_prime_keeps_its_degenerate_answers() {
    // 1 is rejected; zero and the negatives are accepted unexamined.
    assert!(!is_prime(1));
    assert!(is_prime(0));
    assert!(is_prime(-3));
    assert!(is_prime(2));
    assert!(!is_prime(9));
}

#[test]
fn next_prime_steps_to_the_next_prime() {
    assert_eq!(next_prime(-5), 2);
    assert_eq!(next_prime(1), 2);
    assert_eq!(next_prime(2), 3);
    assert_eq!(next_prime(3), 5);
    assert_eq!(next_prime(13), 17);
    assert_eq!(next_prime(14), 17);
    assert_eq!(next_prime(89), 97);
}
