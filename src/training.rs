//! Partitioning of a shuffled dataset into a training and a validation part,
//! and the class encoding used by the logistic fitter.

use vstd::prelude::*;

verus! {

/// Sizes of the training and validation parts of a dataset of `n` samples:
/// the first `floor(4n/5)` samples train, the remaining ones validate.
pub fn split_lengths(n: usize) -> (r: (usize, usize))
    ensures
        r.0 == (4 * n as int) / 5,
        r.0 + r.1 == n,
{
    let q: usize = n / 5;
    let rem: usize = n % 5;
    let teach: usize = 4 * q + (4 * rem) / 5;
    assert(teach as int == (4 * n as int) / 5) by (nonlinear_arith)
        requires
            q == n / 5,
            rem == n % 5,
            teach == 4 * q + (4 * rem) / 5,
    ;
    (teach, n - teach)
}

/// The target that the logistic fitter uses for a class label: class 1 is
/// the positive class.
pub open spec fn class_sign(label: i32) -> int {
    if label == 1 {
        1
    } else {
        -1
    }
}

/// Encodes each class label as `+1` (class 1) or `-1` (any other class).
pub fn class_signs(labels: &Vec<i32>) -> (r: Vec<i8>)
    ensures
        r@.len() == labels@.len(),
        forall|i: int| 0 <= i < labels@.len() ==> r@[i] == class_sign(#[trigger] labels@[i]),
{
    let mut r: Vec<i8> = Vec::new();
    let mut i: usize = 0;
    while i < labels.len()
        invariant
            i <= labels@.len(),
            r@.len() == i,
            forall|j: int| 0 <= j < i ==> r@[j] == class_sign(#[trigger] labels@[j]),
        decreases labels@.len() - i,
    {
        let s: i8 = if labels[i] == 1 { 1 } else { -1 };
        r.push(s);
        i = i + 1;
    }
    r
}

} // verus!
