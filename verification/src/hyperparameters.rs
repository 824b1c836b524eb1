//! The integer part of the default hyperparameters.
use vstd::prelude::*;

verus! {

/// Fewest quiet sweeps that the default configuration asks for.
pub const MIN_MAX_PASSES: usize = 100;

/// `usize::isqrt`, which std documents as the square root rounded down: the
/// contract claims `r * r <= n < (r + 1) * (r + 1)` and nothing more.
#[verifier::external_body]
fn floor_sqrt(n: usize) -> (r: usize)
    ensures
        r * r <= n < (r + 1) * (r + 1),
{
    n.isqrt()
}

/// The default number of quiet sweeps after which training stops, for `n`
/// training samples: the larger of 100 and the square root of `n` rounded down.
pub fn default_max_passes(n: usize) -> (res: usize)
    ensures
        res >= MIN_MAX_PASSES,
        res > MIN_MAX_PASSES ==> res * res <= n < (res + 1) * (res + 1),
        res == MIN_MAX_PASSES ==> n < (MIN_MAX_PASSES + 1) * (MIN_MAX_PASSES + 1),
{
    let r = floor_sqrt(n);
    if r > MIN_MAX_PASSES {
        r
    } else {
        assert((r + 1) * (r + 1) <= 101 * 101) by (nonlinear_arith)
            requires
                r <= 100,
        ;
        MIN_MAX_PASSES
    }
}

} // verus!
