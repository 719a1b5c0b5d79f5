use lau_approximation_theory::agent_model::{moving_average_window, sample_index};

#[test]
fn test_window_interior_and_edges() {
    assert_eq!(moving_average_window(0, 5, 3), (0, 2));
    assert_eq!(moving_average_window(2, 5, 3), (1, 4));
    assert_eq!(moving_average_window(4, 5, 3), (3, 5));
    assert_eq!(moving_average_window(3, 10, 6), (0, 7));
}

#[test]
fn test_window_zero_or_one_is_single_sample() {
    assert_eq!(moving_average_window(2, 5, 0), (2, 3));
    assert_eq!(moving_average_window(2, 5, 1), (2, 3));
}

#[test]
fn test_window_wider_than_data() {
    assert_eq!(moving_average_window(1, 3, 100), (0, 3));
}

#[test]
fn test_window_always_contains_position() {
    for n in 1..20usize {
        for window in 0..25usize {
            for i in 0..n {
                let (lo, hi) = moving_average_window(i, n, window);
                assert!(lo <= i && i < hi && hi <= n);
            }
        }
    }
}

#[test]
fn test_sample_index_clamps() {
    assert_eq!(sample_index(2, 5), Some(2));
    assert_eq!(sample_index(7, 5), Some(4));
    assert_eq!(sample_index(0, 1), Some(0));
    assert_eq!(sample_index(3, 0), None);
}
