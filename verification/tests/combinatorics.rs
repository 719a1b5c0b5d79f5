use lau_approximation_theory::pade::{comb, comb_checked, factorial, factorial_checked};

#[test]
fn test_comb_small_values() {
    assert_eq!(comb(5, 2), 10);
    assert_eq!(comb(10, 3), 120);
    assert_eq!(comb(10, 7), 120);
    assert_eq!(comb(6, 0), 1);
    assert_eq!(comb(6, 6), 1);
    assert_eq!(comb(0, 0), 1);
    assert_eq!(comb(7, 1), 7);
}

#[test]
fn test_comb_above_n_is_zero() {
    assert_eq!(comb(5, 7), 0);
    assert_eq!(comb(0, 1), 0);
    assert_eq!(comb_checked(3, 4), Some(0));
}

#[test]
fn test_comb_pascal_rule() {
    for n in 1..30usize {
        for k in 1..=n {
            assert_eq!(comb(n, k), comb(n - 1, k - 1) + comb(n - 1, k));
        }
    }
}

#[test]
fn test_comb_symmetry() {
    for n in 0..40usize {
        for k in 0..=n {
            assert_eq!(comb(n, k), comb(n, n - k));
        }
    }
}

#[test]
fn test_comb_closed_form() {
    for n in 0..=20usize {
        for k in 0..=n {
            assert_eq!(comb(n, k) * factorial(k) * factorial(n - k), factorial(n));
        }
    }
}

#[test]
fn test_comb_large_middle() {
    // C(60, 30) = 118264581564861424, and 30 * C(60, 30) still fits in 64 bits
    assert_eq!(comb(60, 30), 118264581564861424);
    assert_eq!(comb_checked(60, 30), Some(118264581564861424));
}

#[test]
fn test_comb_checked_overflow() {
    assert_eq!(comb_checked(100, 50), None);
    assert_eq!(comb_checked(200, 3), Some(1313400));
    assert_eq!(comb_checked(200, 197), Some(1313400));
}

#[test]
fn test_comb_checked_matches_comb() {
    for n in 0..50usize {
        for k in 0..=(n + 2) {
            assert_eq!(comb_checked(n, k), Some(comb(n, k)));
        }
    }
}

#[test]
fn test_factorial_values() {
    assert_eq!(factorial(0), 1);
    assert_eq!(factorial(1), 1);
    assert_eq!(factorial(5), 120);
    assert_eq!(factorial(10), 3628800);
    assert_eq!(factorial(20), 2432902008176640000);
}

#[test]
fn test_factorial_recurrence() {
    for n in 1..=20usize {
        assert_eq!(factorial(n), n * factorial(n - 1));
    }
}

#[test]
fn test_factorial_checked() {
    assert_eq!(factorial_checked(0), Some(1));
    assert_eq!(factorial_checked(6), Some(720));
    assert_eq!(factorial_checked(20), Some(2432902008176640000));
    assert_eq!(factorial_checked(21), None);
    assert_eq!(factorial_checked(1000), None);
}

#[test]
fn test_comb_row_ends() {
    for n in 0..=62usize {
        assert_eq!(comb(n, 0), 1);
        assert_eq!(comb(n, n), 1);
    }
}

#[test]
fn test_comb_quotient_form() {
    for n in 0..=20usize {
        for k in 0..=n {
            assert_eq!(comb(n, k), factorial(n) / (factorial(k) * factorial(n - k)));
        }
    }
}

#[test]
fn test_comb_fits_for_all_k_up_to_62() {
    for n in 0..=62usize {
        for k in 0..=(n + 1) {
            assert!(comb_checked(n, k).is_some(), "C({n}, {k}) overflowed");
        }
    }
    assert_eq!(comb(59, 29), 59132290782430712);
}

#[test]
fn test_comb_checked_overflow_threshold() {
    assert_eq!(comb_checked(62, 31), Some(465428353255261088));
    assert_eq!(comb_checked(63, 31), None);
}
