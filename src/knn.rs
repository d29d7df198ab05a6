//! k-nearest-neighbours classification of labelled points, and its
//! leave-one-out evaluation.
//!
//! Points are referred to by position. The distance from each point to the
//! query is given as an order key: a `u64` that orders as the distances do
//! (for non-negative, non-NaN `f64` distances, their bit patterns). Points
//! are ordered by key, and points at equal distance by position, which is
//! the order a stable sort by distance leaves them in. The k nearest are the
//! first k of that order; the prediction is the label that most of them
//! carry, the smallest such label where several tie.

use vstd::prelude::*;
use vstd::relations::injective_on;
use vstd::set_lib::*;

verus! {

/// Whether the point at `a` comes before the point at `b`: it is nearer,
/// or as near and earlier in the sequence.
pub open spec fn closer(keys: Seq<u64>, a: int, b: int) -> bool {
    keys[a] < keys[b] || (keys[a] == keys[b] && a < b)
}

/// How many of the first `m` points, leaving out the one at `skip`, come
/// before the point at `i`.
pub open spec fn rank_upto(keys: Seq<u64>, skip: int, i: int, m: int) -> nat
    decreases m,
{
    if m <= 0 {
        0
    } else {
        rank_upto(keys, skip, i, m - 1) + if m - 1 != skip && closer(keys, m - 1, i) {
            1nat
        } else {
            0nat
        }
    }
}

/// The position of the point at `i` in the order of the points other than
/// the one at `skip`.
pub open spec fn rank(keys: Seq<u64>, skip: int, i: int) -> nat {
    rank_upto(keys, skip, i, keys.len() as int)
}

/// The labels of those of the first `m` points, leaving out the one at
/// `skip`, whose rank is below `k`, in the order of the sequence.
pub open spec fn nearest_upto(keys: Seq<u64>, labels: Seq<i32>, skip: int, k: int, m: int) -> Seq<
    i32,
>
    decreases m,
{
    if m <= 0 {
        Seq::<i32>::empty()
    } else {
        let p = nearest_upto(keys, labels, skip, k, m - 1);
        if m - 1 != skip && rank(keys, skip, m - 1) < k {
            p.push(labels[m - 1])
        } else {
            p
        }
    }
}

/// The labels of the `k` points nearest to the query, the point at `skip`
/// left out (no point is left out where `skip` is not a position).
pub open spec fn nearest(keys: Seq<u64>, labels: Seq<i32>, skip: int, k: int) -> Seq<i32> {
    nearest_upto(keys, labels, skip, k, keys.len() as int)
}

/// How many times `l` occurs in `s`.
pub open spec fn tally(s: Seq<i32>, l: i32) -> nat
    decreases s.len(),
{
    if s.len() == 0 {
        0
    } else {
        tally(s.drop_last(), l) + if s.last() == l {
            1nat
        } else {
            0nat
        }
    }
}

/// Whether `l` wins the vote among `s`: it occurs in `s`, no label occurs
/// more often, and every label that occurs as often is not smaller.
pub open spec fn is_vote(s: Seq<i32>, l: i32) -> bool {
    tally(s, l) > 0 && forall|m: i32| #[trigger]
        tally(s, m) < tally(s, l) || (tally(s, m) == tally(s, l) && l <= m)
}

/// Whether leaving out the point at `i` and classifying it by its `k`
/// nearest neighbours among the others gives back its own label.
pub open spec fn hit(labels: Seq<i32>, dist: Seq<Seq<u64>>, k: int, i: int) -> bool {
    is_vote(nearest(dist[i], labels, i, k), labels[i])
}

/// How many of the first `m` points are classified correctly when left out.
pub open spec fn hits_upto(labels: Seq<i32>, dist: Seq<Seq<u64>>, k: int, m: int) -> nat
    decreases m,
{
    if m <= 0 {
        0
    } else {
        hits_upto(labels, dist, k, m - 1) + if hit(labels, dist, k, m - 1) {
            1nat
        } else {
            0nat
        }
    }
}

/// The rows of a table of order keys.
pub open spec fn rows(d: Seq<Vec<u64>>) -> Seq<Seq<u64>> {
    d.map_values(|r: Vec<u64>| r@)
}

/// The vote has one winner at most: the prediction is a function of the
/// neighbours' labels alone.
pub proof fn vote_is_unique(s: Seq<i32>, a: i32, b: i32)
    requires
        is_vote(s, a),
        is_vote(s, b),
    ensures
        a == b,
{
    assert(tally(s, b) < tally(s, a) || (tally(s, b) == tally(s, a) && a <= b));
    assert(tally(s, a) < tally(s, b) || (tally(s, a) == tally(s, b) && b <= a));
}

proof fn lemma_tally_present(s: Seq<i32>, j: int)
    requires
        0 <= j < s.len(),
    ensures
        tally(s, s[j]) > 0,
    decreases s.len(),
{
    if j < s.len() - 1 {
        lemma_tally_present(s.drop_last(), j);
    }
}

proof fn lemma_tally_absent(s: Seq<i32>, m: i32)
    requires
        forall|j: int| 0 <= j < s.len() ==> s[j] != m,
    ensures
        tally(s, m) == 0,
    decreases s.len(),
{
    if s.len() > 0 {
        lemma_tally_absent(s.drop_last(), m);
    }
}

/// How many times `l` occurs in `s`.
fn count_label(s: &Vec<i32>, l: i32) -> (r: usize)
    ensures
        r == tally(s@, l),
{
    let mut c: usize = 0;
    let mut i: usize = 0;
    while i < s.len()
        invariant
            i <= s@.len(),
            c == tally(s@.take(i as int), l),
            c <= i,
        decreases s@.len() - i,
    {
        assert(s@.take(i + 1).drop_last() == s@.take(i as int));
        if s[i] == l {
            c = c + 1;
        }
        i = i + 1;
    }
    assert(s@.take(i as int) == s@);
    c
}

/// The label that occurs most often in `s`; of several that occur equally
/// often, the smallest.
pub fn majority(s: &Vec<i32>) -> (r: i32)
    requires
        s@.len() > 0,
    ensures
        is_vote(s@, r),
{
    let mut best = s[0];
    let mut best_count = count_label(s, best);
    proof {
        lemma_tally_present(s@, 0);
    }
    let mut i: usize = 1;
    while i < s.len()
        invariant
            1 <= i <= s@.len(),
            best_count == tally(s@, best),
            best_count > 0,
            forall|j: int|
                0 <= j < i ==> tally(s@, #[trigger] s@[j]) < best_count || (tally(s@, s@[j])
                    == best_count && best <= s@[j]),
        decreases s@.len() - i,
    {
        let l = s[i];
        let c = count_label(s, l);
        if c > best_count || (c == best_count && l < best) {
            best = l;
            best_count = c;
        }
        i = i + 1;
    }
    assert forall|m: i32| #[trigger]
        tally(s@, m) < tally(s@, best) || (tally(s@, m) == tally(s@, best) && best <= m) by {
        if exists|j: int| 0 <= j < s@.len() && s@[j] == m {
            let j = choose|j: int| 0 <= j < s@.len() && s@[j] == m;
            assert(tally(s@, s@[j]) < best_count || (tally(s@, s@[j]) == best_count && best
                <= s@[j]));
        } else {
            lemma_tally_absent(s@, m);
        }
    }
    best
}

/// The first point of the order among the first `m`, the one at `skip`
/// left out; `w` is any point other than it.
proof fn lemma_first(keys: Seq<u64>, skip: int, m: int, w: int) -> (b: int)
    requires
        0 <= w < m <= keys.len(),
        w != skip,
    ensures
        0 <= b < m,
        b != skip,
        forall|j: int| 0 <= j < m && j != skip && j != b ==> closer(keys, b, j),
    decreases m,
{
    let w2: int = if skip != 0 {
        0
    } else {
        1
    };
    if w2 < m - 1 {
        let b2 = lemma_first(keys, skip, m - 1, w2);
        if m - 1 == skip || closer(keys, b2, m - 1) {
            b2
        } else {
            assert forall|j: int| 0 <= j < m && j != skip && j != m - 1 implies keys[m - 1]
                < #[trigger] keys[j] || (keys[m - 1] == keys[j] && m - 1 < j) by {
                if j != b2 {
                    assert(closer(keys, b2, j));
                }
            }
            m - 1
        }
    } else {
        m - 1
    }
}

proof fn lemma_rank_zero(keys: Seq<u64>, skip: int, i: int, m: int)
    requires
        0 <= i < keys.len(),
        m <= keys.len(),
        forall|j: int| 0 <= j < m && j != skip && j != i ==> closer(keys, i, j),
    ensures
        rank_upto(keys, skip, i, m) == 0,
    decreases m,
{
    if m > 0 {
        lemma_rank_zero(keys, skip, i, m - 1);
        if m - 1 != skip && m - 1 != i {
            assert(closer(keys, i, m - 1));
        }
    }
}

proof fn lemma_nearest_nonempty(keys: Seq<u64>, labels: Seq<i32>, skip: int, k: int, m: int, b: int)
    requires
        0 <= b < m,
        b != skip,
        rank(keys, skip, b) < k,
    ensures
        nearest_upto(keys, labels, skip, k, m).len() > 0,
    decreases m,
{
    if b < m - 1 {
        lemma_nearest_nonempty(keys, labels, skip, k, m - 1, b);
    }
}

/// How many points, the one at `skip` left out, come before the one at `i`.
fn rank_of(keys: &Vec<u64>, skip: usize, i: usize) -> (r: usize)
    requires
        i < keys@.len(),
    ensures
        r == rank(keys@, skip as int, i as int),
{
    let n = keys.len();
    let mut c: usize = 0;
    let mut m: usize = 0;
    while m < n
        invariant
            m <= n,
            n == keys@.len(),
            i < n,
            c == rank_upto(keys@, skip as int, i as int, m as int),
            c <= m,
        decreases n - m,
    {
        if m != skip && (keys[m] < keys[i] || (keys[m] == keys[i] && m < i)) {
            c = c + 1;
        }
        m = m + 1;
    }
    c
}

/// The labels of the `k` points nearest to the query, the one at `skip`
/// left out.
fn nearest_labels(labels: &Vec<i32>, keys: &Vec<u64>, skip: usize, k: usize) -> (r: Vec<i32>)
    requires
        labels@.len() == keys@.len(),
    ensures
        r@ == nearest(keys@, labels@, skip as int, k as int),
{
    let n = keys.len();
    let mut r: Vec<i32> = Vec::new();
    let mut m: usize = 0;
    while m < n
        invariant
            m <= n,
            n == keys@.len(),
            labels@.len() == n,
            r@ == nearest_upto(keys@, labels@, skip as int, k as int, m as int),
        decreases n - m,
    {
        if m != skip {
            let c = rank_of(keys, skip, m);
            if c < k {
                r.push(labels[m]);
            }
        }
        m = m + 1;
    }
    r
}

/// Classifies the query by majority vote among its `k` nearest points, the
/// one at `skip` left out.
fn classify_without(labels: &Vec<i32>, keys: &Vec<u64>, skip: usize, k: usize) -> (r: i32)
    requires
        labels@.len() == keys@.len(),
        k >= 1,
        keys@.len() >= 1,
        skip < keys@.len() ==> keys@.len() >= 2,
    ensures
        is_vote(nearest(keys@, labels@, skip as int, k as int), r),
{
    let near = nearest_labels(labels, keys, skip, k);
    proof {
        let n = keys@.len() as int;
        let w: int = if skip != 0 {
            0
        } else {
            1
        };
        let b = lemma_first(keys@, skip as int, n, w);
        lemma_rank_zero(keys@, skip as int, b, n);
        lemma_nearest_nonempty(keys@, labels@, skip as int, k as int, n, b);
    }
    majority(&near)
}

/// Classifies a query point by majority vote among its `k` nearest points.
/// `keys[i]` orders the distance from the point at `i` to the query, and
/// `labels[i]` is its label.
pub fn solve(labels: &Vec<i32>, keys: &Vec<u64>, k: usize) -> (r: i32)
    requires
        labels@.len() == keys@.len(),
        keys@.len() >= 1,
        k >= 1,
    ensures
        is_vote(nearest(keys@, labels@, keys@.len() as int, k as int), r),
{
    assert(0 != keys@.len());
    classify_without(labels, keys, keys.len(), k)
}

/// Leave-one-out evaluation: classifies each point by its `k` nearest among
/// the others and counts those that get their own label back. `dist[i][j]`
/// orders the distance from the point at `j` to the point at `i`.
pub fn leave_one_out(labels: &Vec<i32>, dist: &Vec<Vec<u64>>, k: usize) -> (r: usize)
    requires
        labels@.len() >= 2,
        dist@.len() == labels@.len(),
        forall|i: int| 0 <= i < dist@.len() ==> (#[trigger] dist@[i])@.len() == labels@.len(),
        k >= 1,
    ensures
        r == hits_upto(labels@, rows(dist@), k as int, labels@.len() as int),
        r <= labels@.len(),
{
    let n = labels.len();
    let mut success: usize = 0;
    let mut i: usize = 0;
    while i < n
        invariant
            i <= n,
            n == labels@.len(),
            n >= 2,
            dist@.len() == n,
            forall|j: int| 0 <= j < dist@.len() ==> (#[trigger] dist@[j])@.len() == n,
            k >= 1,
            success == hits_upto(labels@, rows(dist@), k as int, i as int),
            success <= i,
        decreases n - i,
    {
        let row = &dist[i];
        let p = classify_without(labels, row, i, k);
        assert(rows(dist@)[i as int] == row@);
        proof {
            if hit(labels@, rows(dist@), k as int, i as int) {
                vote_is_unique(nearest(row@, labels@, i as int, k as int), p, labels@[i as int]);
            }
        }
        if p == labels[i] {
            success = success + 1;
        }
        i = i + 1;
    }
    success
}

/// The positions of the points that take part, the one at `skip` left out.
pub open spec fn candidates(n: int, skip: int) -> Set<int> {
    Set::new(|i: int| 0 <= i < n && i != skip)
}

/// How many points take part, the one at `skip` left out.
pub open spec fn candidate_count(n: int, skip: int) -> int {
    if 0 <= skip < n {
        n - 1
    } else {
        n
    }
}

/// The positions among the first `m` whose labels `nearest_upto` keeps.
pub open spec fn chosen_upto(keys: Seq<u64>, skip: int, k: int, m: int) -> Set<int> {
    Set::new(|i: int| 0 <= i < m && i != skip && rank(keys, skip, i) < k)
}

proof fn lemma_rank_bound(keys: Seq<u64>, skip: int, i: int, m: int)
    requires
        0 <= m <= keys.len(),
        0 <= i < keys.len(),
        i != skip,
    ensures
        rank_upto(keys, skip, i, m) + (if 0 <= skip < m {
            1int
        } else {
            0int
        }) + (if i < m {
            1int
        } else {
            0int
        }) <= m,
    decreases m,
{
    if m > 0 {
        lemma_rank_bound(keys, skip, i, m - 1);
    }
}

proof fn lemma_rank_order(keys: Seq<u64>, skip: int, a: int, b: int, m: int)
    requires
        0 <= a < keys.len(),
        0 <= b < keys.len(),
        a != skip,
        closer(keys, a, b),
        0 <= m <= keys.len(),
    ensures
        rank_upto(keys, skip, a, m) + (if a < m {
            1int
        } else {
            0int
        }) <= rank_upto(keys, skip, b, m),
    decreases m,
{
    if m > 0 {
        lemma_rank_order(keys, skip, a, b, m - 1);
    }
}

proof fn lemma_chosen_len(keys: Seq<u64>, labels: Seq<i32>, skip: int, k: int, m: int)
    requires
        0 <= m <= keys.len(),
    ensures
        chosen_upto(keys, skip, k, m).finite(),
        nearest_upto(keys, labels, skip, k, m).len() == chosen_upto(keys, skip, k, m).len(),
    decreases m,
{
    if m == 0 {
        assert(chosen_upto(keys, skip, k, m) =~= Set::<int>::empty());
    } else {
        lemma_chosen_len(keys, labels, skip, k, m - 1);
        if m - 1 != skip && rank(keys, skip, m - 1) < k {
            assert(chosen_upto(keys, skip, k, m) =~= chosen_upto(keys, skip, k, m - 1).insert(
                m - 1,
            ));
        } else {
            assert(chosen_upto(keys, skip, k, m) =~= chosen_upto(keys, skip, k, m - 1));
        }
    }
}

/// A point nearer than a chosen one is chosen too: the chosen points come
/// first in the order.
pub proof fn nearer_is_chosen(keys: Seq<u64>, skip: int, k: int, a: int, b: int)
    requires
        candidates(keys.len() as int, skip).contains(a),
        candidates(keys.len() as int, skip).contains(b),
        closer(keys, a, b),
        rank(keys, skip, b) < k,
    ensures
        rank(keys, skip, a) < k,
{
    lemma_rank_order(keys, skip, a, b, keys.len() as int);
}

/// Exactly `k` points are chosen, or every point that takes part where
/// there are fewer.
pub proof fn nearest_len(keys: Seq<u64>, labels: Seq<i32>, skip: int, k: int)
    requires
        k >= 0,
    ensures
        nearest(keys, labels, skip, k).len() == if k < candidate_count(keys.len() as int, skip) {
            k
        } else {
            candidate_count(keys.len() as int, skip)
        },
{
    let n = keys.len() as int;
    let c = candidate_count(n, skip);
    let low = if k < c {
        k
    } else {
        c
    };
    let cs = candidates(n, skip);
    let f = |i: int| rank(keys, skip, i) as int;
    lemma_int_range(0, n);
    if 0 <= skip < n {
        assert(cs =~= set_int_range(0, n).remove(skip));
    } else {
        assert(cs =~= set_int_range(0, n));
    }
    assert(cs.len() == c);
    assert forall|a: int, b: int| cs.contains(a) && cs.contains(b) && #[trigger] f(a) == #[trigger] f(
        b,
    ) implies a == b by {
        if a != b {
            if closer(keys, a, b) {
                lemma_rank_order(keys, skip, a, b, n);
            } else {
                lemma_rank_order(keys, skip, b, a, n);
            }
        }
    }
    assert(injective_on(f, cs));
    lemma_map_size(cs, cs.map(f), f);
    assert forall|r: int| cs.map(f).contains(r) implies set_int_range(0, c).contains(r) by {
        let i = choose|i: int| cs.contains(i) && r == f(i);
        lemma_rank_bound(keys, skip, i, n);
    }
    lemma_int_range(0, c);
    lemma_subset_equality(cs.map(f), set_int_range(0, c));
    let chosen = chosen_upto(keys, skip, k, n);
    assert(chosen.subset_of(cs));
    lemma_len_subset(chosen, cs);
    assert forall|r: int| #[trigger] chosen.map(f).contains(r) <==> set_int_range(0, low).contains(
        r,
    ) by {
        if set_int_range(0, low).contains(r) {
            assert(cs.map(f).contains(r));
            let i = choose|i: int| cs.contains(i) && r == f(i);
            assert(chosen.contains(i));
        }
        if chosen.map(f).contains(r) {
            let i = choose|i: int| chosen.contains(i) && r == f(i);
            assert(cs.map(f).contains(r));
        }
    }
    assert(chosen.map(f) =~= set_int_range(0, low));
    lemma_map_size(chosen, chosen.map(f), f);
    lemma_int_range(0, low);
    lemma_chosen_len(keys, labels, skip, k, n);
}

} // verus!
