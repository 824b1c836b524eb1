//! Selection of the support vectors after training.
use vstd::prelude::*;

verus! {

/// The positions `i` with `keep[i]`, in increasing order. Training keeps as
/// support vectors the samples whose multiplier passed the threshold test;
/// `keep[i]` is the outcome of that test for sample `i`.
pub fn kept_indices(keep: &[bool]) -> (res: Vec<usize>)
    ensures
        forall|j: int| 0 <= j < res.len() ==> #[trigger] res@[j] < keep.len() && keep@[res@[j] as int],
        forall|j1: int, j2: int| 0 <= j1 < j2 < res.len() ==> #[trigger] res@[j1] < #[trigger] res@[j2],
        forall|i: int| 0 <= i < keep.len() && #[trigger] keep@[i] ==> res@.contains(i as usize),
{
    let mut res: Vec<usize> = Vec::new();
    let mut i: usize = 0;
    while i < keep.len()
        invariant
            i <= keep.len(),
            forall|j: int| 0 <= j < res.len() ==> #[trigger] res@[j] < i && keep@[res@[j] as int],
            forall|j1: int, j2: int| 0 <= j1 < j2 < res.len() ==> #[trigger] res@[j1] < #[trigger] res@[j2],
            forall|t: int| 0 <= t < i && #[trigger] keep@[t] ==> res@.contains(t as usize),
        decreases keep.len() - i,
    {
        if keep[i] {
            let ghost before = res@;
            res.push(i);
            proof {
                assert forall|t: int| 0 <= t < i + 1 && #[trigger] keep@[t] implies res@.contains(t as usize) by {
                    if t < i {
                        let w = choose|w: int| 0 <= w < before.len() && before[w] == t as usize;
                        assert(res@[w] == t as usize);
                    } else {
                        assert(res@[res.len() - 1] == i);
                    }
                }
            }
        }
        i = i + 1;
    }
    res
}

} // verus!
