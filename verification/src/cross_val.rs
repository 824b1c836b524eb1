//! K-fold splitting of sample indices, and gathering of the rows of a fold.
use vstd::arithmetic::div_mod::lemma_fundamental_div_mod;
use vstd::arithmetic::mul::lemma_mul_inequality;
use vstd::prelude::*;

verus! {

/// The consecutive indices `lo, lo + 1, ..., hi - 1`.
pub open spec fn index_range(lo: nat, hi: nat) -> Seq<usize> {
    Seq::new((hi - lo) as nat, |j: int| (lo + j) as usize)
}

/// First index of the test part of fold `f` when `n` samples are cut into `k` folds.
pub open spec fn fold_start(n: nat, k: nat, f: nat) -> nat {
    f * (n / k)
}

/// One past the last index of the test part of fold `f`: every fold but the last
/// holds `n / k` samples, the last one takes what is left.
pub open spec fn fold_end(n: nat, k: nat, f: nat) -> nat {
    if f + 1 == k {
        n
    } else {
        (f + 1) * (n / k)
    }
}

/// The indices that fold `f` holds out for testing.
pub open spec fn test_indices(n: nat, k: nat, f: nat) -> Seq<usize> {
    index_range(fold_start(n, k, f), fold_end(n, k, f))
}

/// The indices that fold `f` trains on: all the others, in increasing order.
pub open spec fn train_indices(n: nat, k: nat, f: nat) -> Seq<usize> {
    index_range(0, fold_start(n, k, f)) + index_range(fold_end(n, k, f), n)
}

/// The boundaries of every fold stay inside `0..=n` and are ordered.
pub proof fn lemma_fold_bounds(n: nat, k: nat, f: nat)
    requires
        k > 0,
        f < k,
    ensures
        fold_start(n, k, f) <= fold_end(n, k, f) <= n,
        f + 1 < k ==> fold_end(n, k, f) == fold_start(n, k, f + 1),
{
    let q = n / k;
    lemma_fundamental_div_mod(n as int, k as int);
    assert(k * q <= n);
    lemma_mul_inequality((f + 1) as int, k as int, q as int);
    lemma_mul_inequality(f as int, (f + 1) as int, q as int);
}

/// `index_range(lo, hi)` holds exactly the indices `x` with `lo <= x < hi`.
pub proof fn lemma_index_range_contains(lo: nat, hi: nat, x: usize)
    requires
        lo <= hi <= usize::MAX,
    ensures
        index_range(lo, hi).contains(x) <==> (lo <= x && x < hi),
{
    let s = index_range(lo, hi);
    if lo <= x && x < hi {
        assert(s[x - lo] == x);
    }
    if s.contains(x) {
        let j = choose|j: int| 0 <= j < s.len() && s[j] == x;
        assert(s[j] == (lo + j) as usize);
    }
}

/// Appends `lo, ..., hi - 1` to `v`.
fn push_range(v: &mut Vec<usize>, lo: usize, hi: usize)
    requires
        lo <= hi,
    ensures
        final(v)@ == old(v)@ + index_range(lo as nat, hi as nat),
{
    let ghost start = v@;
    let mut x = lo;
    while x < hi
        invariant
            lo <= x <= hi,
            v@ == start + index_range(lo as nat, x as nat),
        decreases hi - x,
    {
        v.push(x);
        x = x + 1;
        assert(v@ =~= start + index_range(lo as nat, x as nat));
    }
}

/// Cuts the indices `0..n` into `k` folds. Fold `i` tests on the `i`-th block of
/// `n / k` consecutive indices (the last fold also takes the remainder) and trains
/// on all other indices, in increasing order. Each element is `(train, test)`.
pub fn kfold_indices(n: usize, k: usize) -> (folds: Vec<(Vec<usize>, Vec<usize>)>)
    requires
        k > 0,
    ensures
        folds.len() == k,
        forall|f: int|
            0 <= f < k ==> (#[trigger] folds@[f]).1@ == test_indices(n as nat, k as nat, f as nat)
                && folds@[f].0@ == train_indices(n as nat, k as nat, f as nat),
        forall|f: int| 0 <= f < k - 1 ==> (#[trigger] folds@[f]).1.len() == n / k,
        folds@[k - 1].1.len() == n - (k - 1) * (n / k),
        forall|f: int, j: int|
            0 <= f < k && 0 <= j < folds@[f].1.len() ==> (#[trigger] folds@[f].1@[j]) == f * (n / k)
                + j,
{
    let mut folds: Vec<(Vec<usize>, Vec<usize>)> = Vec::new();
    let fold_size = n / k;
    let mut i: usize = 0;
    while i < k
        invariant
            i <= k,
            k > 0,
            fold_size == n / k,
            folds.len() == i,
            forall|f: int|
                0 <= f < i ==> (#[trigger] folds@[f]).1@ == test_indices(n as nat, k as nat, f as nat)
                    && folds@[f].0@ == train_indices(n as nat, k as nat, f as nat),
        decreases k - i,
    {
        proof {
            lemma_fold_bounds(n as nat, k as nat, i as nat);
        }
        let start = i * fold_size;
        let end = if i == k - 1 {
            n
        } else {
            (i + 1) * fold_size
        };
        let mut test: Vec<usize> = Vec::new();
        push_range(&mut test, start, end);
        let mut train: Vec<usize> = Vec::new();
        push_range(&mut train, 0, start);
        push_range(&mut train, end, n);
        assert(test@ =~= test_indices(n as nat, k as nat, i as nat));
        assert(train@ =~= train_indices(n as nat, k as nat, i as nat));
        folds.push((train, test));
        i = i + 1;
    }
    proof {
        lemma_fold_blocks(n as nat, k as nat);
    }
    folds
}

/// Fold `f` tests on `n / k` consecutive indices starting at `f * (n / k)`, but the
/// last fold, which runs from `(k - 1) * (n / k)` to `n`.
pub proof fn lemma_fold_blocks(n: nat, k: nat)
    requires
        k > 0,
        n <= usize::MAX,
    ensures
        forall|f: nat| f + 1 < k ==> (#[trigger] test_indices(n, k, f)).len() == n / k,
        test_indices(n, k, (k - 1) as nat).len() == n - (k - 1) * (n / k),
        forall|f: nat, j: int|
            f < k && 0 <= j < test_indices(n, k, f).len() ==> #[trigger] test_indices(n, k, f)[j]
                == f * (n / k) + j,
{
    let q = n / k;
    assert forall|f: nat| f + 1 < k implies (#[trigger] test_indices(n, k, f)).len() == n / k by {
        lemma_fold_bounds(n, k, f);
        assert((f + 1) * q == f * q + q) by (nonlinear_arith);
    }
    lemma_fold_bounds(n, k, (k - 1) as nat);
    assert forall|f: nat, j: int|
        f < k && 0 <= j < test_indices(n, k, f).len() implies #[trigger] test_indices(n, k, f)[j]
        == f * (n / k) + j by {
        lemma_fold_bounds(n, k, f);
    }
}

/// All folds but the last test on the same number of indices: the largest count
/// that `k` folds can each take out of `n`. The last fold takes the rest, less
/// than `k` more than the others; together they start at 0 and end at `n`.
pub proof fn lemma_fold_sizes(n: nat, k: nat, f: nat)
    requires
        k > 0,
        f < k,
    ensures
        fold_start(n, k, 0) == 0,
        fold_end(n, k, (k - 1) as nat) == n,
        f + 1 < k ==> ({
            let size = (fold_end(n, k, f) - fold_start(n, k, f)) as nat;
            &&& fold_start(n, k, f) + size == fold_end(n, k, f)
            &&& size * k <= n < (size + 1) * k
            &&& fold_start(n, k, f) == f * size
        }),
        ({
            let last = (fold_end(n, k, (k - 1) as nat) - fold_start(n, k, (k - 1) as nat)) as nat;
            let size = fold_end(n, k, 0) - fold_start(n, k, 0);
            k > 1 ==> size <= last < size + k
        }),
{
    let q = n / k;
    lemma_fundamental_div_mod(n as int, k as int);
    assert(fold_start(n, k, 0) == 0) by {
        assert(0 * q == 0) by (nonlinear_arith);
    }
    lemma_fold_bounds(n, k, f);
    lemma_fold_bounds(n, k, (k - 1) as nat);
    if f + 1 < k {
        assert((f + 1) * q == f * q + q) by (nonlinear_arith);
        assert(q * k <= n < (q + 1) * k) by (nonlinear_arith)
            requires
                n == k * q + n % k,
                0 <= n % k < k,
        ;
    }
    if k > 1 {
        lemma_fold_bounds(n, k, 0);
        assert((0 + 1) * q == q) by (nonlinear_arith);
        let r = n % k;
        assert((k - 1) * q == k * q - q) by (nonlinear_arith);
        assert(n - (k - 1) * q == q + r);
    }
}

/// Within one fold, every index below `n` is either trained on or tested on,
/// never both, and no index at or above `n` appears in either part.
pub proof fn lemma_fold_partitions_indices(n: nat, k: nat, f: nat, x: usize)
    requires
        k > 0,
        f < k,
        n <= usize::MAX,
    ensures
        x < n ==> (train_indices(n, k, f).contains(x) <==> !test_indices(n, k, f).contains(x)),
        train_indices(n, k, f).contains(x) || test_indices(n, k, f).contains(x) ==> x < n,
{
    lemma_fold_bounds(n, k, f);
    let s = fold_start(n, k, f);
    let e = fold_end(n, k, f);
    lemma_index_range_contains(s, e, x);
    lemma_index_range_contains(0, s, x);
    lemma_index_range_contains(e, n, x);
    let a = index_range(0, s);
    let b = index_range(e, n);
    vstd::seq_lib::lemma_seq_concat_contains_all_elements(a, b, x);
    if (a + b).contains(x) {
        let j = choose|j: int| 0 <= j < (a + b).len() && (a + b)[j] == x;
        if j < a.len() {
            assert(a[j] == x);
        } else {
            assert(b[j - a.len()] == x);
        }
    }
}

/// Across the `k` folds, every index below `n` is tested in exactly one fold.
pub proof fn lemma_each_index_tested_once(n: nat, k: nat, x: usize)
    requires
        k > 0,
        x < n,
        n <= usize::MAX,
    ensures
        exists|f: nat| f < k && #[trigger] test_indices(n, k, f).contains(x),
        forall|f1: nat, f2: nat|
            f1 < k && f2 < k && #[trigger] test_indices(n, k, f1).contains(x)
                && #[trigger] test_indices(n, k, f2).contains(x) ==> f1 == f2,
{
    let q = n / k;
    let xn: nat = x as nat;
    lemma_fundamental_div_mod(n as int, k as int);
    // the fold that holds x
    let f: nat = if q == 0 || xn / q >= k - 1 {
        (k - 1) as nat
    } else {
        xn / q
    };
    lemma_fold_bounds(n, k, f);
    assert(fold_start(n, k, f) <= xn < fold_end(n, k, f)) by {
        if q == 0 {
            assert(f * q == 0) by (nonlinear_arith)
                requires
                    q == 0,
            ;
        } else {
            lemma_fundamental_div_mod(xn as int, q as int);
            let d: nat = xn / q;
            let r: nat = xn % q;
            assert(xn == q * d + r);
            if d >= k - 1 {
                assert(f * q <= d * q) by {
                    lemma_mul_inequality(f as int, d as int, q as int);
                }
                assert(d * q <= xn) by (nonlinear_arith)
                    requires
                        xn == q * d + r,
                ;
            } else {
                assert(f * q <= xn) by (nonlinear_arith)
                    requires
                        f == d,
                        xn == q * d + r,
                ;
                assert(xn < (f + 1) * q) by (nonlinear_arith)
                    requires
                        f == d,
                        xn == q * d + r,
                        r < q,
                ;
            }
        }
    }
    lemma_index_range_contains(fold_start(n, k, f), fold_end(n, k, f), x);
    assert(test_indices(n, k, f).contains(x));
    assert forall|f1: nat, f2: nat|
        f1 < k && f2 < k && #[trigger] test_indices(n, k, f1).contains(x)
            && #[trigger] test_indices(n, k, f2).contains(x) implies f1 == f2 by {
        lemma_fold_bounds(n, k, f1);
        lemma_fold_bounds(n, k, f2);
        lemma_index_range_contains(fold_start(n, k, f1), fold_end(n, k, f1), x);
        lemma_index_range_contains(fold_start(n, k, f2), fold_end(n, k, f2), x);
        if f1 < f2 {
            lemma_folds_ordered(n, k, f1, f2);
        } else if f2 < f1 {
            lemma_folds_ordered(n, k, f2, f1);
        }
    }
}

/// An earlier fold ends no later than a later fold starts.
proof fn lemma_folds_ordered(n: nat, k: nat, f1: nat, f2: nat)
    requires
        k > 0,
        f1 < f2 < k,
    ensures
        fold_end(n, k, f1) <= fold_start(n, k, f2),
{
    let q = n / k;
    assert(fold_end(n, k, f1) == (f1 + 1) * q);
    lemma_mul_inequality((f1 + 1) as int, f2 as int, q as int);
}

/// Copies the elements of `data` at the positions in `idx`, in that order.
pub fn gather<T: Clone>(data: &[T], idx: &[usize]) -> (out: Vec<T>)
    requires
        forall|i: int| 0 <= i < idx.len() ==> #[trigger] idx@[i] < data.len(),
    ensures
        out.len() == idx.len(),
        forall|i: int| 0 <= i < idx.len() ==> cloned::<T>(data@[idx@[i] as int], #[trigger] out@[i]),
{
    let mut out: Vec<T> = Vec::new();
    let mut i: usize = 0;
    while i < idx.len()
        invariant
            i <= idx.len(),
            out.len() == i,
            forall|j: int| 0 <= j < idx.len() ==> #[trigger] idx@[j] < data.len(),
            forall|j: int| 0 <= j < i ==> cloned::<T>(data@[idx@[j] as int], #[trigger] out@[j]),
        decreases idx.len() - i,
    {
        let item = data[idx[i]].clone();
        out.push(item);
        i = i + 1;
    }
    out
}

} // verus!
