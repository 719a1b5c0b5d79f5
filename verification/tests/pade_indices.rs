use lau_approximation_theory::pade::pade_matrix_index;

#[test]
fn test_pade_index_toeplitz_pattern() {
    // [3/2]: row i, column j reads c_{3 + i - j}
    assert_eq!(pade_matrix_index(3, 0, 0), Some(3));
    assert_eq!(pade_matrix_index(3, 0, 1), Some(2));
    assert_eq!(pade_matrix_index(3, 1, 0), Some(4));
    assert_eq!(pade_matrix_index(3, 1, 1), Some(3));
}

#[test]
fn test_pade_index_negative_is_none() {
    // [0/2]: row 0, column 1 would read c_{-1}
    assert_eq!(pade_matrix_index(0, 0, 0), Some(0));
    assert_eq!(pade_matrix_index(0, 0, 1), None);
    assert_eq!(pade_matrix_index(0, 1, 1), Some(0));
    assert_eq!(pade_matrix_index(1, 0, 5), None);
}

#[test]
fn test_pade_index_within_required_coefficients() {
    for m in 0..6usize {
        for n in 0..6usize {
            for i in 0..n {
                for j in 0..n {
                    if let Some(idx) = pade_matrix_index(m, i, j) {
                        assert!(idx < m + n + 1);
                        assert_eq!(idx + j, m + i);
                    } else {
                        assert!(j > m + i);
                    }
                }
            }
        }
    }
}
