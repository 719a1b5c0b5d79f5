use lau_approximation_theory::remez::{alternating_extrema, evenly_spaced_indices, ErrorSign};

use ErrorSign::{Negative as N, Positive as P, Undefined as U};

#[test]
fn test_alternating_skips_repeated_signs() {
    let signs = vec![P, P, N, U, P];
    assert_eq!(alternating_extrema(&signs, 3), vec![0, 2, 4]);
}

#[test]
fn test_alternating_stops_at_count() {
    let signs = vec![N, P, N, P, N, P];
    assert_eq!(alternating_extrema(&signs, 4), vec![0, 1, 2, 3]);
}

#[test]
fn test_alternating_short_when_signs_do_not_alternate() {
    let signs = vec![P, P, P, P];
    assert_eq!(alternating_extrema(&signs, 3), vec![0]);
    let signs = vec![P, N, N, N];
    assert_eq!(alternating_extrema(&signs, 3), vec![0, 1]);
}

#[test]
fn test_alternating_undefined_first_sign_matches_nothing() {
    let signs = vec![U, P, N, U, P];
    assert_eq!(alternating_extrema(&signs, 3), vec![0]);
}

#[test]
fn test_alternating_undefined_never_picked_later() {
    let signs = vec![P, U, U, N, U, P];
    assert_eq!(alternating_extrema(&signs, 10), vec![0, 3, 5]);
}

#[test]
fn test_alternating_count_zero_sets_no_limit() {
    let signs = vec![P, N, P, N];
    assert_eq!(alternating_extrema(&signs, 0), vec![0, 1, 2, 3]);
}

#[test]
fn test_alternating_empty() {
    assert_eq!(alternating_extrema(&Vec::new(), 3), Vec::<usize>::new());
}

#[test]
fn test_evenly_spaced_values() {
    assert_eq!(evenly_spaced_indices(10, 3), vec![0, 3, 6]);
    assert_eq!(evenly_spaced_indices(7, 7), vec![0, 1, 2, 3, 4, 5, 6]);
    assert_eq!(evenly_spaced_indices(2, 3), vec![0, 1]);
    assert_eq!(evenly_spaced_indices(0, 2), Vec::<usize>::new());
}

#[test]
fn test_evenly_spaced_full_when_enough() {
    for len in 1..60usize {
        for count in 1..=len {
            let idx = evenly_spaced_indices(len, count);
            assert_eq!(idx.len(), count);
            let step = (len / count).max(1);
            for (j, &i) in idx.iter().enumerate() {
                assert_eq!(i, j * step);
                assert!(i < len);
            }
        }
    }
}
