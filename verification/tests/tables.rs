use num_bigint::BigUint;
use pop_prob::fac::Fac;
use pop_prob::pop_prob_error::PopProbError;
use pop_prob::snsk::Snsk;
use std::str::FromStr;

#[test]
fn fac_starts_at_one_and_grows_by_n() {
    let mut fac = Fac::new();
    assert_eq!(&BigUint::from(1_u32), fac.fac(0));
    for n in 1..80_u32 {
        let below = fac.fac(n - 1).clone();
        assert_eq!(&(below * n), fac.fac(n));
    }
}

#[test]
fn fac_descending_queries() {
    let mut fac = Fac::new();
    assert_eq!(&BigUint::from(3628800_u32), fac.fac(10));
    assert_eq!(&BigUint::from(120_u32), fac.fac(5));
    assert_eq!(&BigUint::from(5040_u32), fac.fac(7));
    assert_eq!(&BigUint::from(39916800_u32), fac.fac(11));
}

#[test]
fn fac_repeated_gives_the_same() {
    let mut fac = Fac::new();
    let first = fac.fac(25).clone();
    let second = fac.fac(25).clone();
    assert_eq!(first, second);
    let mut fresh = Fac::new();
    fresh.fac(30);
    assert_eq!(&first, fresh.fac(25));
}

#[test]
fn snsk_one_group() {
    let mut snsk = Snsk::new();
    for n in 1..40 {
        assert_eq!(&BigUint::from(1_u32), snsk.calc(n, 1).unwrap());
    }
}

#[test]
fn snsk_singletons() {
    let mut snsk = Snsk::new();
    for n in 0..40 {
        assert_eq!(&BigUint::from(1_u32), snsk.calc(n, n).unwrap());
    }
}

#[test]
fn snsk_no_group() {
    let mut snsk = Snsk::new();
    for n in 1..40 {
        assert_eq!(&BigUint::from(0_u32), snsk.calc(n, 0).unwrap());
    }
}

#[test]
fn snsk_recurrence() {
    let mut snsk = Snsk::new();
    for n in 3..25_u32 {
        for k in 2..n {
            let left = snsk.calc(n - 1, k - 1).unwrap().clone();
            let right = snsk.calc(n - 1, k).unwrap().clone();
            assert_eq!(&(left + right * k), snsk.calc(n, k).unwrap());
        }
    }
}

#[test]
fn snsk_row_sums_are_bell_numbers() {
    let bell: [u32; 9] = [1, 1, 2, 5, 15, 52, 203, 877, 4140];
    let mut snsk = Snsk::new();
    for n in 0..9_u32 {
        let mut sum = BigUint::from(0_u32);
        for k in 0..=n {
            sum += snsk.calc(n, k).unwrap();
        }
        assert_eq!(BigUint::from(bell[n as usize]), sum);
    }
}

#[test]
fn snsk_pairs_of_groups() {
    // Two groups: each item but one chooses a side, less the empty split.
    let mut snsk = Snsk::new();
    assert_eq!(&BigUint::from(511_u32), snsk.calc(10, 2).unwrap());
    assert_eq!(&BigUint::from(524287_u32), snsk.calc(20, 2).unwrap());
}

#[test]
fn snsk_beyond_64_bits() {
    let mut snsk = Snsk::new();
    let expected = BigUint::from_str(
        "35216480564791974097669259465849601174356023206565782557760056606618405496605345727816",
    )
    .unwrap();
    assert_eq!(&expected, snsk.calc(80, 20).unwrap());
}

#[test]
fn snsk_k_greater_than_n_names_both() {
    let mut snsk = Snsk::new();
    assert_eq!(
        snsk.calc(1, 2).unwrap_err(),
        PopProbError::SnskKGreaterThanN((2, 1))
    );
    assert_eq!(
        snsk.calc(0, 1).unwrap_err(),
        PopProbError::SnskKGreaterThanN((1, 0))
    );
    assert_eq!(
        snsk.calc(7, 4000000000).unwrap_err(),
        PopProbError::SnskKGreaterThanN((4000000000, 7))
    );
}

#[test]
fn snsk_always_fails_above_the_diagonal() {
    let mut snsk = Snsk::new();
    for n in 0..12 {
        for k in n + 1..n + 5 {
            assert!(snsk.calc(n, k).is_err());
        }
    }
    assert_eq!(&BigUint::from(7_u32), snsk.calc(4, 2).unwrap());
}

#[test]
fn snsk_repeated_gives_the_same() {
    let mut snsk = Snsk::new();
    let first = snsk.calc(30, 12).unwrap().clone();
    let second = snsk.calc(30, 12).unwrap().clone();
    assert_eq!(first, second);
    let mut fresh = Snsk::new();
    fresh.calc(40, 20).unwrap();
    assert_eq!(&first, fresh.calc(30, 12).unwrap());
}

#[test]
fn snsk_does_not_depend_on_order() {
    let mut down = Snsk::new();
    let mut up = Snsk::new();
    let pairs: [(u32, u32); 5] = [(12, 5), (9, 4), (9, 5), (6, 3), (12, 7)];
    let mut from_down = Vec::new();
    for (n, k) in pairs {
        from_down.push(down.calc(n, k).unwrap().clone());
    }
    let mut from_up = Vec::new();
    for (n, k) in pairs.iter().rev() {
        from_up.push(up.calc(*n, *k).unwrap().clone());
    }
    from_up.reverse();
    assert_eq!(from_down, from_up);
    assert_eq!(BigUint::from(1379400_u32), from_down[0]);
    assert_eq!(BigUint::from(627396_u32), from_down[4]);
}
