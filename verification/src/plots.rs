//! The training-set sizes at which the learning curve is sampled.
use vstd::prelude::*;

verus! {

/// Number of points on the learning curve.
pub const CURVE_POINTS: usize = 10;

/// Smallest training set the curve trains on.
pub const MIN_CURVE_SIZE: usize = 2;

/// Size of the training set at point `t` (counted from zero) of the curve, for a
/// training part of `m` samples: `m * (t + 1) / 10`, but at least 2.
pub open spec fn curve_size(m: nat, t: nat) -> nat {
    let s = m * (t + 1) / 10;
    if s >= 2 {
        s
    } else {
        2
    }
}

/// The ten training-set sizes of the learning curve for `m` training samples:
/// a tenth, two tenths, ..., all of them, each at least 2.
pub fn learning_curve_steps(m: usize) -> (steps: Vec<usize>)
    requires
        m * CURVE_POINTS <= usize::MAX,
    ensures
        steps.len() == CURVE_POINTS,
        forall|t: int| 0 <= t < CURVE_POINTS ==> #[trigger] steps@[t] == curve_size(m as nat, t as nat),
        forall|t: int|
            0 <= t < 10 ==> #[trigger] steps@[t] == if m * (t + 1) / 10 >= 2 {
                m * (t + 1) / 10
            } else {
                2
            },
        steps@[9] == if m >= 2 {
            m
        } else {
            2
        },
{
    let mut steps: Vec<usize> = Vec::new();
    let mut i: usize = 1;
    while i <= CURVE_POINTS
        invariant
            1 <= i <= CURVE_POINTS + 1,
            m * CURVE_POINTS <= usize::MAX,
            steps.len() == i - 1,
            forall|t: int| 0 <= t < i - 1 ==> #[trigger] steps@[t] == curve_size(m as nat, t as nat),
        decreases CURVE_POINTS + 1 - i,
    {
        assert(m * i <= m * CURVE_POINTS) by (nonlinear_arith)
            requires
                i <= CURVE_POINTS,
        ;
        let size = m * i / 10;
        let step = if size >= MIN_CURVE_SIZE {
            size
        } else {
            MIN_CURVE_SIZE
        };
        steps.push(step);
        i = i + 1;
    }
    proof {
        lemma_curve_sizes(m as nat);
    }
    steps
}

/// Point `t` of the curve trains on `(t + 1)` tenths of the training part,
/// rounded down, but on at least 2 samples; the sizes never shrink along the
/// curve, and the last point trains on the whole training part (or 2 samples).
pub proof fn lemma_curve_sizes(m: nat)
    ensures
        forall|t: nat| t < 10 ==> #[trigger] curve_size(m, t) >= 2,
        forall|t: nat|
            t < 10 && #[trigger] curve_size(m, t) > 2 ==> curve_size(m, t) * 10 <= m * (t + 1) < (
            curve_size(m, t) + 1) * 10,
        forall|t: nat|
            t < 10 && #[trigger] curve_size(m, t) == 2 ==> m * (t + 1) < 30,
        forall|t1: nat, t2: nat| t1 <= t2 < 10 ==> #[trigger] curve_size(m, t1) <= #[trigger] curve_size(m, t2),
        curve_size(m, 9) == if m >= 2 {
            m
        } else {
            2
        },
{
    assert forall|t: nat| t < 10 && #[trigger] curve_size(m, t) > 2 implies curve_size(m, t) * 10 <= m * (
    t + 1) < (curve_size(m, t) + 1) * 10 by {
        let p = m * (t + 1);
        assert(0 <= p - (p / 10) * 10 < 10) by (nonlinear_arith);
    }
    assert forall|t: nat| t < 10 && #[trigger] curve_size(m, t) == 2 implies m * (t + 1) < 30 by {
        let p = m * (t + 1);
        assert(0 <= p - (p / 10) * 10 < 10) by (nonlinear_arith);
    }
    assert forall|t1: nat, t2: nat| t1 <= t2 < 10 implies #[trigger] curve_size(m, t1) <= #[trigger] curve_size(
        m,
        t2,
    ) by {
        assert(m * (t1 + 1) <= m * (t2 + 1)) by (nonlinear_arith)
            requires
                t1 <= t2,
        ;
        vstd::arithmetic::div_mod::lemma_div_is_ordered((m * (t1 + 1)) as int, (m * (t2 + 1)) as int, 10);
    }
    assert(m * (9 + 1) / 10 == m) by (nonlinear_arith);
}

} // verus!
