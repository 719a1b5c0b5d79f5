//! Chebyshev polynomials of the first kind: the basis type and the exact
//! angles of their nodes and extrema.
use vstd::prelude::*;

verus! {

/// Chebyshev polynomial basis of the first kind, holding `T_0 ..= T_max_degree`.
#[derive(Debug, Clone)]
pub struct ChebyshevBasis {
    /// Maximum degree.
    pub max_degree: usize,
}

impl ChebyshevBasis {
    /// Create a basis up to the given degree.
    pub fn new(max_degree: usize) -> (basis: Self)
        ensures
            basis.max_degree == max_degree,
    {
        ChebyshevBasis { max_degree }
    }
}

/// Chebyshev nodes of the first kind as fractions of `pi`: node `k` of `n` is
/// `cos(pi * (2k + 1) / (2n))`, so entry `k` is the pair `(2k + 1, 2n)`.
pub fn chebyshev_node_angles(n: usize) -> (angles: Vec<(usize, usize)>)
    requires
        n == 0 || 2 * n <= usize::MAX,
    ensures
        angles@.len() == n,
        forall|k: int| 0 <= k < n ==> #[trigger] angles@[k] == ((2 * k + 1) as usize, (2 * n) as usize),
        // every angle lies strictly inside (0, pi), so every node inside (-1, 1)
        forall|k: int| 0 <= k < n ==> 0 < #[trigger] angles@[k].0 < angles@[k].1,
        // nodes k and n - 1 - k have angles summing to pi: the nodes are symmetric about 0
        forall|k: int|
            0 <= k < n ==> #[trigger] angles@[k].0 + angles@[n - 1 - k].0 == angles@[k].1,
        // each numerator is odd over the denominator 2n, so n times each angle is
        // an odd multiple of pi / 2: the nodes are the zeros of T_n
        forall|k: int| 0 <= k < n ==> #[trigger] angles@[k].0 % 2 == 1,
{
    let mut angles: Vec<(usize, usize)> = Vec::new();
    let mut k: usize = 0;
    while k < n
        invariant
            k <= n,
            n == 0 || 2 * n <= usize::MAX,
            angles@.len() == k,
            forall|j: int| 0 <= j < k ==> #[trigger] angles@[j] == ((2 * j + 1) as usize, (2 * n) as usize),
        decreases n - k,
    {
        angles.push((2 * k + 1, 2 * n));
        k += 1;
    }
    proof {
        assert forall|k: int| 0 <= k < n implies #[trigger] angles@[k].0 + angles@[n - 1 - k].0
            == angles@[k].1 by {
            assert(angles@[n - 1 - k] == ((2 * (n - 1 - k) + 1) as usize, (2 * n) as usize));
        }
    }
    angles
}

/// Chebyshev extrema (nodes of the second kind) as fractions of `pi`: extremum
/// `k` of `0 ..= n` is `cos(pi * k / n)`, so entry `k` is the pair `(k, n)`.
pub fn chebyshev_extrema_angles(n: usize) -> (angles: Vec<(usize, usize)>)
    requires
        n < usize::MAX,
    ensures
        angles@.len() == n + 1,
        forall|k: int| 0 <= k <= n ==> #[trigger] angles@[k] == (k as usize, n),
        // the first extremum has angle 0 and the last angle pi: cos gives 1 and -1
        angles@[0].0 == 0,
        angles@[n as int].0 == angles@[n as int].1,
{
    let mut angles: Vec<(usize, usize)> = Vec::new();
    let mut k: usize = 0;
    while k <= n
        invariant
            k <= n + 1,
            n < usize::MAX,
            angles@.len() == k,
            forall|j: int| 0 <= j < k ==> #[trigger] angles@[j] == (j as usize, n),
        decreases n + 1 - k,
    {
        angles.push((k, n));
        k += 1;
    }
    angles
}

} // verus!
