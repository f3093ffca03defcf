use tsto_bsv3::ea::num::{gcd, lcm};

#[test]
fn gcd_of_pairs() {
    assert_eq!(gcd(12, 18), 6);
    assert_eq!(gcd(18, 12), 6);
    assert_eq!(gcd(17, 5), 1);
    assert_eq!(gcd(0, 9), 9);
    assert_eq!(gcd(9, 0), 9);
    assert_eq!(gcd(0, 0), 0);
    assert_eq!(gcd(24, 24), 24);
}

#[test]
fn lcm_of_one_number_is_the_number() {
    assert_eq!(lcm(&[7]), 7);
    assert_eq!(lcm(&[0]), 0);
}

#[test]
fn lcm_of_lists() {
    assert_eq!(lcm(&[4, 6]), 12);
    assert_eq!(lcm(&[2, 3, 4]), 12);
    assert_eq!(lcm(&[5, 10, 15, 20]), 60);
    assert_eq!(lcm(&[24, 24, 24]), 24);
    assert_eq!(lcm(&[1, 1, 1, 9]), 9);
    assert_eq!(lcm(&[3, 0]), 0);
}

#[test]
fn lcm_is_a_multiple_of_each_and_divides_common_multiples() {
    let nums = [6usize, 10, 15];
    let l = lcm(&nums);
    assert_eq!(l, 30);
    for n in nums {
        assert_eq!(l % n, 0);
    }
    assert_eq!(60 % l, 0);
    assert_eq!(90 % l, 0);
}
