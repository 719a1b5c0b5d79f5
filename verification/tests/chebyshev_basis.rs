use lau_approximation_theory::chebyshev::ChebyshevBasis;

#[test]
fn test_basis_new_keeps_degree() {
    assert_eq!(ChebyshevBasis::new(5).max_degree, 5);
    assert_eq!(ChebyshevBasis::new(0).max_degree, 0);
}

#[test]
fn test_basis_clone() {
    let b = ChebyshevBasis::new(10);
    let c = b.clone();
    assert_eq!(c.max_degree, 10);
}

use lau_approximation_theory::chebyshev::{chebyshev_extrema_angles, chebyshev_node_angles};

#[test]
fn test_node_angles_values() {
    assert_eq!(chebyshev_node_angles(3), vec![(1, 6), (3, 6), (5, 6)]);
    assert_eq!(chebyshev_node_angles(0), Vec::<(usize, usize)>::new());
    assert_eq!(chebyshev_node_angles(1), vec![(1, 2)]);
}

#[test]
fn test_node_angles_symmetric_and_inside() {
    for n in 1..30usize {
        let a = chebyshev_node_angles(n);
        assert_eq!(a.len(), n);
        for k in 0..n {
            assert!(0 < a[k].0 && a[k].0 < a[k].1);
            assert_eq!(a[k].0 + a[n - 1 - k].0, a[k].1);
        }
    }
}

#[test]
fn test_node_angles_are_zeros_of_t_n() {
    let n = 6usize;
    for (k, &(num, den)) in chebyshev_node_angles(n).iter().enumerate() {
        // n * num / den == (2k + 1) / 2, an odd multiple of 1/2
        assert_eq!(2 * n * num, den * (2 * k + 1));
    }
}

#[test]
fn test_extrema_angles_values() {
    let e = chebyshev_extrema_angles(4);
    assert_eq!(e, vec![(0, 4), (1, 4), (2, 4), (3, 4), (4, 4)]);
    assert_eq!(e[0].0, 0);
    assert_eq!(e[4].0, e[4].1);
    assert_eq!(chebyshev_extrema_angles(0), vec![(0, 0)]);
}
