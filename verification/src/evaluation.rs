//! Confusion counts of a binary classifier on a test set.
use vstd::prelude::*;

verus! {

/// Class code of the positive class, as predictions and labels use it.
pub const POSITIVE: i32 = 1;

/// Class code of the negative class.
pub const NEGATIVE: i32 = -1;

/// The four cells of a confusion matrix.
pub struct ConfusionCounts {
    /// Predicted positive, labelled positive.
    pub true_pos: usize,
    /// Predicted negative, labelled negative.
    pub true_neg: usize,
    /// Predicted positive, labelled negative.
    pub false_pos: usize,
    /// Predicted negative, labelled positive.
    pub false_neg: usize,
}

/// Number of positions `i < classes.len()` with `classes[i] == c` and `labels[i] == l`.
pub open spec fn count_pairs(classes: Seq<i32>, labels: Seq<i32>, c: i32, l: i32) -> nat
    decreases classes.len(),
{
    if classes.len() == 0 {
        0
    } else {
        let i = classes.len() - 1;
        count_pairs(classes.drop_last(), labels, c, l) + if classes[i] == c && labels[i] == l {
            1nat
        } else {
            0nat
        }
    }
}

/// Number of positions where both the prediction and the label are one of the two
/// class codes, that is, the positions that the confusion matrix counts.
pub open spec fn count_scored(classes: Seq<i32>, labels: Seq<i32>) -> nat
    decreases classes.len(),
{
    if classes.len() == 0 {
        0
    } else {
        let i = classes.len() - 1;
        count_scored(classes.drop_last(), labels) + if (classes[i] == POSITIVE || classes[i]
            == NEGATIVE) && (labels[i] == POSITIVE || labels[i] == NEGATIVE) {
            1nat
        } else {
            0nat
        }
    }
}

/// The counts are never larger than the number of predictions.
pub proof fn lemma_count_scored_bound(classes: Seq<i32>, labels: Seq<i32>)
    ensures
        count_scored(classes, labels) <= classes.len(),
    decreases classes.len(),
{
    if classes.len() > 0 {
        lemma_count_scored_bound(classes.drop_last(), labels);
    }
}

/// Tallies predictions against labels: `classes[i]` is the predicted class code of
/// sample `i` and `labels[i]` its label's class code (`1` or `-1`; any other code
/// is counted in no cell). Only the first `classes.len()` labels are read.
pub fn tally(classes: &[i32], labels: &[i32]) -> (res: ConfusionCounts)
    requires
        classes.len() <= labels.len(),
    ensures
        res.true_pos == count_pairs(classes@, labels@, POSITIVE, POSITIVE),
        res.false_pos == count_pairs(classes@, labels@, POSITIVE, NEGATIVE),
        res.false_neg == count_pairs(classes@, labels@, NEGATIVE, POSITIVE),
        res.true_neg == count_pairs(classes@, labels@, NEGATIVE, NEGATIVE),
        res.true_pos + res.true_neg + res.false_pos + res.false_neg == count_scored(
            classes@,
            labels@,
        ),
        count_scored(classes@, labels@) <= classes.len(),
        res.true_pos == Seq::new(classes@.len(), |i: int| i).filter(
            |i: int| classes@[i] == 1 && labels@[i] == 1,
        ).len(),
        res.false_pos == Seq::new(classes@.len(), |i: int| i).filter(
            |i: int| classes@[i] == 1 && labels@[i] == -1,
        ).len(),
        res.false_neg == Seq::new(classes@.len(), |i: int| i).filter(
            |i: int| classes@[i] == -1 && labels@[i] == 1,
        ).len(),
        res.true_neg == Seq::new(classes@.len(), |i: int| i).filter(
            |i: int| classes@[i] == -1 && labels@[i] == -1,
        ).len(),
{
    let mut res = ConfusionCounts { true_pos: 0, true_neg: 0, false_pos: 0, false_neg: 0 };
    let mut i: usize = 0;
    while i < classes.len()
        invariant
            i <= classes.len() <= labels.len(),
            res.true_pos == count_pairs(classes@.take(i as int), labels@, POSITIVE, POSITIVE),
            res.false_pos == count_pairs(classes@.take(i as int), labels@, POSITIVE, NEGATIVE),
            res.false_neg == count_pairs(classes@.take(i as int), labels@, NEGATIVE, POSITIVE),
            res.true_neg == count_pairs(classes@.take(i as int), labels@, NEGATIVE, NEGATIVE),
            res.true_pos + res.true_neg + res.false_pos + res.false_neg == count_scored(
                classes@.take(i as int),
                labels@,
            ),
            count_scored(classes@.take(i as int), labels@) <= i,
        decreases classes.len() - i,
    {
        let c = classes[i];
        let l = labels[i];
        proof {
            assert(classes@.take(i + 1).drop_last() =~= classes@.take(i as int));
            lemma_count_scored_bound(classes@.take(i as int), labels@);
        }
        if c == POSITIVE {
            if l == POSITIVE {
                res.true_pos = res.true_pos + 1;
            } else if l == NEGATIVE {
                res.false_pos = res.false_pos + 1;
            }
        } else if c == NEGATIVE {
            if l == POSITIVE {
                res.false_neg = res.false_neg + 1;
            } else if l == NEGATIVE {
                res.true_neg = res.true_neg + 1;
            }
        }
        i = i + 1;
    }
    assert(classes@.take(i as int) =~= classes@);
    proof {
        lemma_count_pairs_counts_positions(classes@, labels@, 1i32, 1i32);
        lemma_count_pairs_counts_positions(classes@, labels@, 1i32, -1i32);
        lemma_count_pairs_counts_positions(classes@, labels@, -1i32, 1i32);
        lemma_count_pairs_counts_positions(classes@, labels@, -1i32, -1i32);
    }
    res
}

/// `count_pairs` counts the positions `i` of the predictions where the
/// prediction is `c` and the label is `l`.
pub proof fn lemma_count_pairs_counts_positions(classes: Seq<i32>, labels: Seq<i32>, c: i32, l: i32)
    ensures
        count_pairs(classes, labels, c, l) == Seq::new(classes.len(), |i: int| i).filter(
            |i: int| classes[i] == c && labels[i] == l,
        ).len(),
{
    lemma_count_pairs_prefix(classes, labels, c, l, classes.len());
    assert(classes.take(classes.len() as int) =~= classes);
}

/// `count_pairs` over the first `m` predictions counts the matching positions below `m`.
proof fn lemma_count_pairs_prefix(classes: Seq<i32>, labels: Seq<i32>, c: i32, l: i32, m: nat)
    requires
        m <= classes.len(),
    ensures
        count_pairs(classes.take(m as int), labels, c, l) == Seq::new(m, |i: int| i).filter(
            |i: int| classes[i] == c && labels[i] == l,
        ).len(),
    decreases m,
{
    reveal(Seq::filter);
    let pred = |i: int| classes[i] == c && labels[i] == l;
    if m == 0 {
        assert(Seq::new(0, |i: int| i).filter(pred) =~= Seq::<int>::empty());
    } else {
        let m1 = (m - 1) as nat;
        lemma_count_pairs_prefix(classes, labels, c, l, m1);
        assert(classes.take(m as int).drop_last() =~= classes.take(m1 as int));
        assert(Seq::new(m, |i: int| i).drop_last() =~= Seq::new(m1, |i: int| i));
        assert(Seq::new(m, |i: int| i).last() == m1);
    }
}

} // verus!
