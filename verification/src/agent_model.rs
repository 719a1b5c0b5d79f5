//! Index arithmetic of the agent behaviour models: the centred smoothing window
//! of a moving average, and the sample that a moving-average prediction reads.
use vstd::prelude::*;

verus! {

/// The half-open window `[lo, hi)` of samples averaged at position `i` of `n`
/// samples by a centred moving average of width `window`: up to `window / 2`
/// samples on each side, cut at both ends of the data.
pub fn moving_average_window(i: usize, n: usize, window: usize) -> (w: (usize, usize))
    requires
        i < n,
        i + window / 2 + 1 <= usize::MAX,
    ensures
        w.0 == (if i >= window / 2 {
            i - window / 2
        } else {
            0
        }),
        w.1 == (if i + window / 2 + 1 <= n {
            i + window / 2 + 1
        } else {
            n as int
        }),
        w.0 <= i < w.1 <= n,
{
    let half = window / 2;
    let lo = i.saturating_sub(half);
    let hi = if i + half + 1 < n {
        i + half + 1
    } else {
        n
    };
    (lo, hi)
}

/// The index of the smoothed sample that a moving-average model returns for a
/// time rounded to `r`: `r` itself, clamped to the last of `len` samples; `None`
/// when there are no samples.
pub fn sample_index(r: usize, len: usize) -> (o: Option<usize>)
    ensures
        len == 0 ==> o is None,
        len > 0 ==> o == Some(if r < len {
            r
        } else {
            (len - 1) as usize
        }),
{
    let last = len.saturating_sub(1);
    let idx = if r < last {
        r
    } else {
        last
    };
    if idx < len {
        Some(idx)
    } else {
        None
    }
}

} // verus!
