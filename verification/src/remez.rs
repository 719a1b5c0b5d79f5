//! Reference-point exchange of the Remez algorithm: which local extrema of the
//! error curve become the next reference set.
use vstd::prelude::*;

verus! {

/// Sign of the approximation error at a local extremum; `Undefined` stands for
/// the sign of a NaN error, which `sign_agrees` never accepts, not even where
/// `Undefined` itself is wanted.
#[derive(Debug, Clone, Copy)]
pub enum ErrorSign {
    Positive,
    Negative,
    Undefined,
}

/// The opposite sign; an undefined sign stays undefined.
pub open spec fn flipped(s: ErrorSign) -> ErrorSign {
    match s {
        ErrorSign::Positive => ErrorSign::Negative,
        ErrorSign::Negative => ErrorSign::Positive,
        ErrorSign::Undefined => ErrorSign::Undefined,
    }
}

/// The sign that the `j`-th reference point must carry when the first one has sign `first`.
pub open spec fn sign_wanted(first: ErrorSign, j: nat) -> ErrorSign {
    if j % 2 == 0 {
        first
    } else {
        flipped(first)
    }
}

/// Whether an extremum of sign `s` is acceptable where sign `w` is wanted.
pub open spec fn sign_agrees(s: ErrorSign, w: ErrorSign) -> bool {
    w != ErrorSign::Undefined && s == w
}

/// Whether `picked` is a prefix of the greedy alternating selection over `signs`:
/// it starts at index `0`, rises, each later index carries the alternated sign,
/// and no index skipped between two picks carries the sign wanted there.
pub open spec fn alternating_prefix(signs: Seq<ErrorSign>, picked: Seq<usize>) -> bool {
    &&& (picked.len() > 0 ==> picked[0] == 0)
    &&& forall|j: int| 0 <= j < picked.len() ==> picked[j] < signs.len()
    &&& forall|i: int, j: int| 0 <= i < j < picked.len() ==> picked[i] < picked[j]
    &&& forall|j: int|
        0 < j < picked.len() ==> sign_agrees(signs[picked[j] as int], sign_wanted(signs[0], j as nat))
    &&& forall|j: int, t: int|
        #![trigger picked[j], signs[t]]
        0 < j < picked.len() && picked[j - 1] < t < picked[j] ==> !sign_agrees(
            signs[t],
            sign_wanted(signs[0], j as nat),
        )
}

/// Alternation of a greedy selection, in terms of the picked signs alone: every
/// pick after the first has a defined sign opposite to the pick before it (which
/// is then defined too), and every extremum skipped between two picks has an
/// undefined sign or the sign of the pick before it.
pub proof fn lemma_alternating_picks_alternate(signs: Seq<ErrorSign>, picked: Seq<usize>)
    requires
        alternating_prefix(signs, picked),
    ensures
        forall|i: int, j: int|
            #![trigger picked[i], picked[j]]
            0 <= i && j == i + 1 && j < picked.len() ==> signs[picked[j] as int]
                != ErrorSign::Undefined && signs[picked[i] as int] != ErrorSign::Undefined
                && signs[picked[j] as int] != signs[picked[i] as int],
        forall|i: int, j: int, t: int|
            #![trigger picked[i], picked[j], signs[t]]
            0 <= i && j == i + 1 && j < picked.len() && picked[i] < t < picked[j] ==> signs[t]
                == ErrorSign::Undefined || signs[t] == signs[picked[i] as int],
{
    assert forall|i: int, j: int|
        #![trigger picked[i], picked[j]]
        0 <= i && j == i + 1 && j < picked.len() implies signs[picked[j] as int]
            != ErrorSign::Undefined && signs[picked[i] as int] != ErrorSign::Undefined
            && signs[picked[j] as int] != signs[picked[i] as int] by {
        lemma_wanted_after(signs, picked, j);
    }
    assert forall|i: int, j: int, t: int|
        #![trigger picked[i], picked[j], signs[t]]
        0 <= i && j == i + 1 && j < picked.len() && picked[i] < t < picked[j] implies signs[t]
            == ErrorSign::Undefined || signs[t] == signs[picked[i] as int] by {
        lemma_wanted_after(signs, picked, j);
    }
}

/// In a greedy alternating selection, the sign wanted for pick `j` is the
/// opposite of the sign of pick `j - 1`; once one pick follows the first, that
/// wanted sign is defined.
pub proof fn lemma_wanted_after(signs: Seq<ErrorSign>, picked: Seq<usize>, j: int)
    requires
        alternating_prefix(signs, picked),
        0 < j <= picked.len(),
    ensures
        sign_wanted(signs[0], j as nat) == flipped(signs[picked[j - 1] as int]),
        j < picked.len() ==> sign_wanted(signs[0], j as nat) != ErrorSign::Undefined,
{
    let s0 = signs[0];
    if j - 1 == 0 {
        assert(picked[0] == 0);
    } else {
        assert(sign_agrees(signs[picked[j - 1] as int], sign_wanted(s0, (j - 1) as nat)));
        assert(signs[picked[j - 1] as int] == sign_wanted(s0, (j - 1) as nat));
        if (j - 1) % 2 == 0 {
            assert(j % 2 == 1);
        } else {
            assert(j % 2 == 0);
            assert(flipped(flipped(s0)) == s0);
        }
    }
    if j < picked.len() {
        assert(sign_agrees(signs[picked[j] as int], sign_wanted(s0, j as nat)));
    }
}

fn flip(s: ErrorSign) -> (r: ErrorSign)
    ensures
        r == flipped(s),
{
    match s {
        ErrorSign::Positive => ErrorSign::Negative,
        ErrorSign::Negative => ErrorSign::Positive,
        ErrorSign::Undefined => ErrorSign::Undefined,
    }
}

fn agrees(s: ErrorSign, w: ErrorSign) -> (b: bool)
    ensures
        b == sign_agrees(s, w),
{
    match (s, w) {
        (ErrorSign::Positive, ErrorSign::Positive) => true,
        (ErrorSign::Negative, ErrorSign::Negative) => true,
        _ => false,
    }
}

/// Picks, from extrema sorted by abscissa with error signs `signs`, the first
/// extremum and then greedily each next one whose sign alternates with the last
/// pick, stopping once `count` are picked (`count == 0` sets no limit).
/// Returns the indices of the picked extrema.
#[verifier::spinoff_prover]
pub fn alternating_extrema(signs: &Vec<ErrorSign>, count: usize) -> (picked: Vec<usize>)
    ensures
        alternating_prefix(signs@, picked@),
        signs@.len() == 0 <==> picked@.len() == 0,
        count > 0 ==> picked@.len() <= count,
        picked@.len() > 0 && !(count > 0 && picked@.len() == count) ==> forall|t: int|
            picked@.last() < t < signs@.len() ==> !sign_agrees(
                signs@[t],
                sign_wanted(signs@[0], picked@.len()),
            ),
        // the first extremum is always picked, and the picks rise within the extrema
        picked@.len() > 0 ==> picked@[0] == 0,
        forall|i: int, j: int|
            0 <= i < j < picked@.len() ==> #[trigger] picked@[i] < #[trigger] picked@[j],
        forall|j: int| 0 <= j < picked@.len() ==> #[trigger] picked@[j] < signs@.len(),
        // the picks alternate in sign, each opposite to the one before
        forall|i: int, j: int|
            #![trigger picked@[i], picked@[j]]
            0 <= i && j == i + 1 && j < picked@.len() ==> signs@[picked@[j] as int]
                != ErrorSign::Undefined && signs@[picked@[i] as int] != ErrorSign::Undefined
                && signs@[picked@[j] as int] != signs@[picked@[i] as int],
        // no extremum of the opposite sign is skipped between two picks
        forall|i: int, j: int, t: int|
            #![trigger picked@[i], picked@[j], signs@[t]]
            0 <= i && j == i + 1 && j < picked@.len() && picked@[i] < t < picked@[j] ==> signs@[t]
                == ErrorSign::Undefined || signs@[t] == signs@[picked@[i] as int],
        // short of `count`, no extremum of the opposite sign follows the last pick
        picked@.len() > 0 && !(count > 0 && picked@.len() == count) ==> forall|t: int|
            picked@.last() < t < signs@.len() ==> #[trigger] signs@[t] == ErrorSign::Undefined
                || signs@[t] == signs@[picked@.last() as int] || signs@[picked@.last() as int]
                == ErrorSign::Undefined,
{
    let mut picked: Vec<usize> = Vec::new();
    let n = signs.len();
    if n == 0 {
        return picked;
    }
    let first = signs[0];
    let mut want = first;
    let mut idx: usize = 0;
    let mut done = false;
    while idx < n && !done
        invariant
            n == signs@.len(),
            n > 0,
            first == signs@[0],
            idx <= n,
            alternating_prefix(signs@, picked@),
            idx == 0 <==> picked@.len() == 0,
            forall|j: int| 0 <= j < picked@.len() ==> picked@[j] < idx,
            want == sign_wanted(first, picked@.len() as nat),
            done == (idx > 0 && picked@.len() == count),
            count > 0 ==> picked@.len() <= count,
            picked@.len() > 0 ==> forall|t: int|
                picked@.last() < t < idx ==> !sign_agrees(signs@[t], want),
        decreases n - idx,
    {
        let s = signs[idx];
        if picked.len() == 0 || agrees(s, want) {
            proof {
                assert(sign_wanted(first, (picked@.len() + 1) as nat) == flipped(want));
            }
            picked.push(idx);
            want = flip(want);
        }
        if picked.len() == count {
            done = true;
        }
        idx += 1;
    }
    proof {
        lemma_alternating_picks_alternate(signs@, picked@);
        if picked@.len() > 0 {
            lemma_wanted_after(signs@, picked@, picked@.len() as int);
        }
    }
    picked
}

/// The stride `max(len / count, 1)` of the evenly spaced fallback selection.
pub open spec fn spacing(len: nat, count: nat) -> nat {
    if len / count >= 1 {
        len / count
    } else {
        1
    }
}

/// Every `max(len / count, 1)`-th index below `len`, at most `count` of them:
/// `0, step, 2 * step, ...`.
pub fn evenly_spaced_indices(len: usize, count: usize) -> (out: Vec<usize>)
    requires
        count > 0,
    ensures
        out@.len() <= count,
        forall|j: int|
            0 <= j < out@.len() ==> out@[j] == j * spacing(len as nat, count as nat) && out@[j] < len,
        out@.len() == count || out@.len() * spacing(len as nat, count as nat) >= len,
        len >= count ==> out@.len() == count,
        // with enough extrema, `count` of them `len / count` apart from the first
        len >= count ==> forall|j: int| 0 <= j < count ==> #[trigger] out@[j] == j * (len / count),
        // with too few, every one of them
        len < count ==> out@.len() == len && forall|j: int| 0 <= j < len ==> #[trigger] out@[j] == j,
{
    let step: usize = if len / count >= 1 {
        len / count
    } else {
        1
    };
    let mut out: Vec<usize> = Vec::new();
    let mut pos: usize = 0;
    let mut more = len > 0;
    while more && out.len() < count
        invariant
            step >= 1,
            out@.len() <= count,
            more ==> pos == out@.len() * step && pos < len,
            !more ==> out@.len() * step >= len,
            forall|j: int| 0 <= j < out@.len() ==> out@[j] == j * step && out@[j] < len,
        decreases count - out@.len(),
    {
        proof {
            assert((out@.len() + 1) * step == out@.len() * step + step) by (nonlinear_arith);
        }
        out.push(pos);
        if len - pos > step {
            pos = pos + step;
        } else {
            more = false;
        }
    }
    proof {
        if len >= count {
            assert(len / count >= 1) by (nonlinear_arith)
                requires
                    len >= count,
                    count > 0,
            ;
            assert(step == len / count);
        } else {
            assert(len / count == 0) by (nonlinear_arith)
                requires
                    len < count,
                    count > 0,
            ;
            assert(step == 1);
            if out@.len() > len {
                assert(out@[len as int] == len * 1);
            }
            if out@.len() == count {
                assert(out@[count - 1] == (count - 1) * 1);
            }
        }
        if len >= count && out@.len() < count {
            let k = out@.len();
            assert(count * (len / count) <= len) by (nonlinear_arith)
                requires
                    count > 0,
            ;
            assert(k * step < len) by (nonlinear_arith)
                requires
                    k + 1 <= count,
                    step == len / count,
                    count * step <= len,
                    step >= 1,
            ;
        }
    }
    out
}

} // verus!
