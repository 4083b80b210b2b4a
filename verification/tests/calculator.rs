use pop_prob::likelihood::SCALE;
use pop_prob::pop_prob_error::PopProbError;
use pop_prob::posterior::Fraction;
use pop_prob::posterior::THRESHOLD;
use pop_prob::Calculator;

#[test]
fn scale_is_the_largest_32_bit_value() {
    assert_eq!(SCALE, u32::MAX);
    assert_eq!(THRESHOLD, 10000);
}

#[test]
fn prob_unique_certain() {
    let mut calc = Calculator::new();
    assert_eq!(calc.prob_unique(1, 1, 1), Ok(SCALE));
    assert_eq!(calc.prob_unique(1, 10, 1), Ok(SCALE));
}

#[test]
fn prob_unique_one_half() {
    let mut calc = Calculator::new();
    assert_eq!(calc.prob_unique(2, 2, 1), Ok(2147483647));
    assert_eq!(calc.prob_unique(2, 2, 2), Ok(2147483647));
}

#[test]
fn prob_unique_exact_values() {
    let mut calc = Calculator::new();
    assert_eq!(calc.prob_unique(10, 5, 3), Ok(773094113));
    assert_eq!(calc.prob_unique(100, 10, 9), Ok(1334132141));
    assert_eq!(calc.prob_unique(6, 4, 3), Ok(2386092941));
    assert_eq!(calc.prob_unique(3, 10, 3), Ok(4071741590));
    assert_eq!(calc.prob_unique(20, 10, 7), Ok(963566141));
}

#[test]
fn prob_unique_birthdays() {
    let mut calc = Calculator::new();
    assert_eq!(calc.prob_unique(365, 23, 23), Ok(2116142264));
    assert_eq!(calc.prob_unique(365, 23, 22), Ok(1560886276));
}

#[test]
fn prob_unique_rounds_down_to_nothing() {
    let mut calc = Calculator::new();
    assert_eq!(calc.prob_unique(1000, 100, 1), Ok(0));
}

#[test]
fn prob_unique_all_outcomes_make_one() {
    let mut calc = Calculator::new();
    let mut total: u64 = 0;
    for unique in 1..=6 {
        total += u64::from(calc.prob_unique(9, 6, unique).unwrap());
    }
    assert!(total <= u64::from(SCALE));
    assert!(total + 6 > u64::from(SCALE));
}

#[test]
fn prob_unique_unique_greater_than_size() {
    let mut calc = Calculator::new();
    assert_eq!(
        calc.prob_unique(2, 5, 3),
        Err(PopProbError::UniqueGreaterThanSize((3, 2)))
    );
    assert_eq!(
        calc.prob_unique(0, 0, 1),
        Err(PopProbError::UniqueGreaterThanSize((1, 0)))
    );
}

#[test]
fn prob_unique_unique_greater_than_sample() {
    let mut calc = Calculator::new();
    assert_eq!(
        calc.prob_unique(5, 2, 3),
        Err(PopProbError::UniqueGreaterThanSample((3, 2)))
    );
    assert_eq!(
        calc.prob_unique(3, 2, 3),
        Err(PopProbError::UniqueGreaterThanSample((3, 2)))
    );
}

#[test]
fn prob_unique_unique_zero() {
    let mut calc = Calculator::new();
    assert_eq!(calc.prob_unique(5, 5, 0), Err(PopProbError::UniqueZero));
    assert_eq!(calc.prob_unique(0, 0, 0), Err(PopProbError::UniqueZero));
}

#[test]
fn prob_unique_size_is_tested_first() {
    let mut calc = Calculator::new();
    assert_eq!(
        calc.prob_unique(1, 2, 3),
        Err(PopProbError::UniqueGreaterThanSize((3, 1)))
    );
}

#[test]
fn prob_unique_boundaries_are_accepted() {
    let mut calc = Calculator::new();
    assert!(calc.prob_unique(3, 3, 3).is_ok());
    assert!(calc.prob_unique(3, 4, 3).is_ok());
    assert!(calc.prob_unique(4, 3, 3).is_ok());
    assert!(calc.prob_unique(1, 1, 1).is_ok());
}

#[test]
fn prob_unique_never_exceeds_one() {
    let mut calc = Calculator::new();
    for size in 1..12 {
        for sample in 1..12 {
            for unique in 1..=size.min(sample) {
                let parts = calc.prob_unique(size, sample, unique).unwrap();
                assert!(parts <= SCALE);
            }
        }
    }
}

#[test]
fn pop_exact_values() {
    let mut calc = Calculator::new();
    assert_eq!(calc.pop(10, 7), Ok(12));
    assert_eq!(calc.pop(20, 15), Ok(31));
    assert_eq!(calc.pop(30, 20), Ok(33));
    assert_eq!(calc.pop(50, 30), Ok(43));
    assert_eq!(calc.pop(6, 5), Ok(13));
    assert_eq!(calc.pop(12, 9), Ok(18));
    assert_eq!(calc.pop(40, 35), Ok(143));
}

#[test]
fn pop_first_candidate_is_the_peak() {
    let mut calc = Calculator::new();
    assert_eq!(calc.pop(5, 3), Ok(3));
    assert_eq!(calc.pop(4, 2), Ok(2));
    assert_eq!(calc.pop(3, 1), Ok(1));
    assert_eq!(calc.pop(10, 1), Ok(1));
    assert_eq!(calc.pop(2, 1), Ok(1));
}

#[test]
fn pop_is_a_local_maximum() {
    let pairs: [(u32, u32); 8] = [
        (10, 7),
        (20, 15),
        (30, 20),
        (50, 30),
        (6, 5),
        (12, 9),
        (40, 35),
        (25, 12),
    ];
    for (sample, unique) in pairs {
        let mut calc = Calculator::new();
        let size = calc.pop(sample, unique).unwrap();
        assert!(size >= unique);
        let at = calc.prob_unique(size, sample, unique).unwrap();
        let above = calc.prob_unique(size + 1, sample, unique).unwrap();
        assert!(at > above);
        if size > unique {
            let below = calc.prob_unique(size - 1, sample, unique).unwrap();
            assert!(at >= below);
        }
    }
}

#[test]
fn pop_is_the_best_of_all_sizes_nearby() {
    let mut calc = Calculator::new();
    let size = calc.pop(30, 20).unwrap();
    let best = calc.prob_unique(size, 30, 20).unwrap();
    for other in 20..200 {
        assert!(calc.prob_unique(other, 30, 20).unwrap() <= best);
    }
}

#[test]
fn pop_unique_greater_than_sample() {
    let mut calc = Calculator::new();
    assert_eq!(
        calc.pop(3, 4),
        Err(PopProbError::UniqueGreaterThanSample((4, 3)))
    );
}

#[test]
fn pop_unique_zero() {
    let mut calc = Calculator::new();
    assert_eq!(calc.pop(3, 0), Err(PopProbError::UniqueZero));
    assert_eq!(calc.pop(0, 0), Err(PopProbError::UniqueZero));
}

#[test]
fn prob_pop_exact_values() {
    let mut calc = Calculator::new();
    assert_eq!(
        calc.prob_pop(10, 7, 13),
        Ok(Fraction {
            numerator: 1584351298,
            denominator: 32224969368
        })
    );
    assert_eq!(
        calc.prob_pop(20, 15, 32),
        Ok(Fraction {
            numerator: 1133752221,
            denominator: 40897820014
        })
    );
    assert_eq!(
        calc.prob_pop(5, 3, 4),
        Ok(Fraction {
            numerator: 2516582399,
            denominator: 21363760794
        })
    );
    assert_eq!(
        calc.prob_pop(30, 20, 36),
        Ok(Fraction {
            numerator: 908608854,
            denominator: 21088993787
        })
    );
}

#[test]
fn prob_pop_at_the_smallest_size() {
    let mut calc = Calculator::new();
    assert_eq!(
        calc.prob_pop(10, 7, 7),
        Ok(Fraction {
            numerator: 450595991,
            denominator: 32224969368
        })
    );
    assert_eq!(
        calc.prob_pop(3, 1, 1),
        Ok(Fraction {
            numerator: 4294967295,
            denominator: 7010913939
        })
    );
}

#[test]
fn prob_pop_of_a_size_without_weight() {
    let mut calc = Calculator::new();
    // Two elements almost never show one face in 40 draws; one element always does.
    assert_eq!(calc.prob_unique(2, 40, 1), Ok(0));
    assert_eq!(
        calc.prob_pop(40, 1, 2),
        Ok(Fraction {
            numerator: 0,
            denominator: 4294967295
        })
    );
    assert_eq!(
        calc.prob_pop(60, 2, 3),
        Ok(Fraction {
            numerator: 0,
            denominator: 4294967294
        })
    );
}

#[test]
fn prob_pop_total_is_never_nothing() {
    let mut calc = Calculator::new();
    let triples: [(u32, u32, u32); 6] = [
        (40, 1, 2),
        (40, 1, 1),
        (60, 2, 3),
        (10, 7, 13),
        (3, 1, 1),
        (30, 20, 36),
    ];
    for (sample, unique, size) in triples {
        let f = calc.prob_pop(sample, unique, size).unwrap();
        assert!(f.denominator > 0);
        assert!(f.numerator <= f.denominator);
        let value = f.numerator as f64 / f.denominator as f64;
        assert!(value.is_finite());
        assert!((0.0..=1.0).contains(&value));
    }
}

#[test]
fn prob_pop_grows_while_the_last_is_one_part_in_ten_thousand() {
    // One draw always shows one element, whatever the size: every size weighs the same,
    // and the window stops only when the last is less than one part in 10000 of the total.
    let mut calc = Calculator::new();
    assert_eq!(
        calc.prob_pop(1, 1, 1),
        Ok(Fraction {
            numerator: 4294967295,
            denominator: 10001 * 4294967295
        })
    );
}

#[test]
fn prob_pop_total_is_at_most_that_of_all_sizes() {
    let mut calc = Calculator::new();
    let f = calc.prob_pop(10, 7, 13).unwrap();
    let mut all: u64 = 0;
    for size in 7..=400 {
        all += u64::from(calc.prob_unique(size, 10, 7).unwrap());
        if size >= 192 {
            assert!(f.denominator <= all);
        }
    }
    // Dividing by the window in place of all sizes is off by less than one part in 100.
    assert!(f.denominator * 101 > all * 100);
}

#[test]
fn prob_pop_is_between_nothing_and_one() {
    let mut calc = Calculator::new();
    for size in 7..40 {
        let f = calc.prob_pop(10, 7, size).unwrap();
        assert!(f.numerator <= f.denominator);
        assert!(f.denominator > 0);
        let value = f.numerator as f64 / f.denominator as f64;
        assert!((0.0..=1.0).contains(&value));
    }
}

#[test]
fn prob_pop_repeated_gives_the_same() {
    let mut calc = Calculator::new();
    let first = calc.prob_pop(20, 15, 32).unwrap();
    let second = calc.prob_pop(20, 15, 32).unwrap();
    let mut fresh = Calculator::new();
    let third = fresh.prob_pop(20, 15, 32).unwrap();
    assert_eq!(first, second);
    assert_eq!(first, third);
}

#[test]
fn prob_pop_window_stops_at_one_part_in_ten_thousand() {
    let mut calc = Calculator::new();
    let f = calc.prob_pop(10, 7, 13).unwrap();
    // The window ran from 7 to 192 and the size added last was 192.
    let mut total: u64 = 0;
    for size in 7..=192 {
        total += u64::from(calc.prob_unique(size, 10, 7).unwrap());
    }
    assert_eq!(total, f.denominator);
    let last = u64::from(calc.prob_unique(192, 10, 7).unwrap());
    assert!(last * THRESHOLD < total);
    let before = u64::from(calc.prob_unique(191, 10, 7).unwrap());
    assert!(before * THRESHOLD >= total - last);
}

#[test]
fn prob_pop_rejects_what_prob_unique_rejects() {
    let mut calc = Calculator::new();
    assert_eq!(
        calc.prob_pop(5, 3, 2),
        Err(PopProbError::UniqueGreaterThanSize((3, 2)))
    );
    assert_eq!(
        calc.prob_pop(2, 3, 5),
        Err(PopProbError::UniqueGreaterThanSample((3, 2)))
    );
    assert_eq!(calc.prob_pop(5, 0, 5), Err(PopProbError::UniqueZero));
}

#[test]
fn prob_pop_at_the_largest_size_has_no_room() {
    let mut calc = Calculator::new();
    assert_eq!(calc.prob_pop(1, 1, u32::MAX), Err(PopProbError::Generic));
}

#[test]
fn calculator_answers_do_not_depend_on_history() {
    let mut used = Calculator::new();
    used.pop(30, 20).unwrap();
    used.prob_pop(10, 7, 13).unwrap();
    let mut fresh = Calculator::new();
    assert_eq!(used.prob_unique(10, 5, 3), fresh.prob_unique(10, 5, 3));
    assert_eq!(used.pop(12, 9), fresh.pop(12, 9));
    assert_eq!(used.prob_pop(5, 3, 4), fresh.prob_pop(5, 3, 4));
}
