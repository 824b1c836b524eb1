//! The integer decisions of the SMO trainer: which second multiplier to pair
//! with the first, and when the sweeps over the training set stop.
use rand::RngExt;
use vstd::prelude::*;

verus! {

/// Draws a number in `0..n` from the thread-local generator, through
/// `rand::rng().random_range(0..n)`. The contract claims only that the number
/// lies in the range, which is what `random_range` documents; `random_range`
/// panics on an empty range, so `n` must be positive.
#[verifier::external_body]
fn random_below(n: usize) -> (r: usize)
    requires
        n > 0,
    ensures
        r < n,
{
    rand::rng().random_range(0..n)
}

/// Maps a draw from `0..k - 1` to an index of `0..k` other than `i`: draws below
/// `i` stand for themselves, the others for the index one higher.
pub fn partner_from_draw(i: usize, draw: usize) -> (j: usize)
    requires
        draw < usize::MAX,
    ensures
        j == if draw < i {
            draw
        } else {
            (draw + 1) as usize
        },
        j != i,
{
    if draw < i {
        draw
    } else {
        draw + 1
    }
}

/// Chooses the second multiplier `j` to optimise together with multiplier `i`
/// among `k` samples. `best` is the index that the error heuristic picked (the
/// extreme error on the side opposite to sample `i`'s error); when it is `i`
/// itself, another index is chosen at random, each of the other `k - 1` equally
/// likely.
pub fn choose_partner(i: usize, best: usize, k: usize) -> (j: usize)
    requires
        2 <= k,
        i < k,
        best < k,
    ensures
        j < k,
        j != i,
        best != i ==> j == best,
{
    if best != i {
        best
    } else {
        let draw = random_below(k - 1);
        partner_from_draw(i, draw)
    }
}

/// Number of consecutive quiet sweeps after one more sweep that changed
/// `changed` pairs of multipliers.
pub open spec fn next_passes(passes: nat, changed: nat) -> nat {
    if changed == 0 {
        passes + 1
    } else {
        0
    }
}

/// The counter after a whole history of sweeps, starting from zero.
pub open spec fn passes_after(history: Seq<usize>) -> nat
    decreases history.len(),
{
    if history.len() == 0 {
        0
    } else {
        next_passes(passes_after(history.drop_last()), history.last() as nat)
    }
}

/// Length of the run of sweeps at the end of `history` that changed nothing.
pub open spec fn trailing_quiet(history: Seq<usize>) -> nat
    decreases history.len(),
{
    if history.len() == 0 || history.last() != 0 {
        0
    } else {
        1 + trailing_quiet(history.drop_last())
    }
}

/// Stopping rule of the SMO sweeps: training goes on until `max_passes`
/// consecutive sweeps over the training set have changed no multiplier.
pub struct PassCounter {
    /// Consecutive sweeps so far that changed nothing.
    pub passes: usize,
    /// Number of quiet sweeps after which training stops.
    pub max_passes: usize,
}

impl PassCounter {
    /// The counter before the first sweep.
    pub fn new(max_passes: usize) -> (res: PassCounter)
        ensures
            res.passes == 0,
            res.max_passes == max_passes,
    {
        PassCounter { passes: 0, max_passes }
    }

    /// Whether training stops here.
    pub fn is_done(&self) -> (res: bool)
        ensures
            res == (self.passes >= self.max_passes),
    {
        self.passes >= self.max_passes
    }

    /// Records a sweep that changed `changed` pairs of multipliers.
    pub fn record_sweep(&mut self, changed: usize)
        requires
            old(self).passes < old(self).max_passes,
        ensures
            final(self).passes == next_passes(old(self).passes as nat, changed as nat),
            final(self).passes == if changed == 0 {
                old(self).passes + 1
            } else {
                0
            },
            final(self).max_passes == old(self).max_passes,
    {
        if changed == 0 {
            self.passes = self.passes + 1;
        } else {
            self.passes = 0;
        }
    }
}

/// Whatever the sweeps were, the counter is the number of sweeps at the end of
/// the history that changed nothing; so it reaches `m` exactly when the last `m`
/// sweeps were all quiet, and training stops exactly then.
pub proof fn lemma_passes_count_quiet_run(history: Seq<usize>, m: nat)
    ensures
        passes_after(history) == trailing_quiet(history),
        passes_after(history) >= m <==> (m <= history.len() && forall|t: int|
            history.len() - m <= t < history.len() ==> #[trigger] history[t] == 0),
    decreases history.len(),
{
    if history.len() > 0 {
        let prev = history.drop_last();
        lemma_passes_count_quiet_run(prev, m);
        if m > 0 {
            lemma_passes_count_quiet_run(prev, (m - 1) as nat);
            let n = history.len();
            if history.last() == 0 {
                let lhs = forall|t: int| prev.len() - (m - 1) <= t < prev.len() ==> #[trigger] prev[t] == 0;
                let rhs = forall|t: int| n - m <= t < n ==> #[trigger] history[t] == 0;
                if m <= n && lhs {
                    assert forall|t: int| n - m <= t < n implies #[trigger] history[t] == 0 by {
                        if t < n - 1 {
                            assert(prev[t] == history[t]);
                        }
                    }
                }
                if m <= n && rhs {
                    assert forall|t: int| prev.len() - (m - 1) <= t < prev.len() implies #[trigger] prev[t]
                        == 0 by {
                        assert(prev[t] == history[t]);
                    }
                }
            } else if m <= n {
                assert(history[n - 1] != 0);
            }
        }
    }
}

} // verus!
