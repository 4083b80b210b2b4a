use num_bigint::BigUint;
use pop_prob::fac::Fac;
use std::str::FromStr;

fn run_single(expected: &BigUint, input: u32) {
    let mut fac = Fac::new();
    assert_eq!(expected, fac.fac(input));
}

#[test]
fn fac_0() {
    run_single(&BigUint::from(1_u32), 0);
}

#[test]
fn fac_1() {
    run_single(&BigUint::from(1_u32), 1);
}

#[test]
fn fac_2() {
    run_single(&BigUint::from(2_u32), 2);
}

#[test]
fn fac_4() {
    run_single(&BigUint::from(24_u32), 4);
}

#[test]
fn fac_8() {
    run_single(&BigUint::from(40320_u32), 8);
}

#[test]
fn fac_16() {
    run_single(&BigUint::from(20922789888000_u64), 16);
}

#[test]
fn fac_32() {
    run_single(
        &BigUint::from(263130836933693530167218012160000000_u128),
        32,
    );
}

#[test]
fn fac_64() {
    run_single(&BigUint::from_str("126886932185884164103433389335161480802865516174545192198801894375214704230400000000000000").unwrap(), 64);
}

#[test]
fn fac_all_at_once() {
    let mut fac = Fac::new();
    assert_eq!(&BigUint::from(1_u32), fac.fac(0));
    assert_eq!(&BigUint::from(1_u32), fac.fac(1));
    assert_eq!(&BigUint::from(2_u32), fac.fac(2));
    assert_eq!(&BigUint::from(24_u32), fac.fac(4));
    assert_eq!(&BigUint::from(40320_u32), fac.fac(8));
    assert_eq!(&BigUint::from(20922789888000_u64), fac.fac(16));
    assert_eq!(
        &BigUint::from(263130836933693530167218012160000000_u128),
        fac.fac(32)
    );
    assert_eq!(&BigUint::from_str("126886932185884164103433389335161480802865516174545192198801894375214704230400000000000000").unwrap(), fac.fac(64));
}
