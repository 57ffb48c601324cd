//! The sampler: weighted random selection over a discrete distribution.
//! The random draw is the only unverified step; everything that decides
//! which item a draw denotes is verified and usable deterministically.

use vstd::prelude::*;

use crate::errors::MarkovError;
use crate::token::{Token, dup_token};

verus! {

/// The sum of the first `k` weights.
pub open spec fn sum_prefix(ws: Seq<u64>, k: int) -> int
    decreases k,
{
    if k <= 0 {
        0
    } else {
        sum_prefix(ws, k - 1) + ws[k - 1]
    }
}

/// A usable weight list: non-empty, every weight strictly positive.
pub open spec fn valid_weights(ws: Seq<u64>) -> bool {
    ws.len() > 0 && forall|i: int| 0 <= i < ws.len() ==> ws[i] > 0
}

/// A usable distribution: non-empty, every weight strictly positive.
pub open spec fn valid_dist(items: Seq<(Token, u64)>) -> bool {
    items.len() > 0 && forall|i: int| 0 <= i < items.len() ==> (#[trigger] items[i]).1 > 0
}

/// The partial sums grow with `k`.
pub proof fn lemma_sum_prefix_mono(ws: Seq<u64>, a: int, b: int)
    requires
        0 <= a <= b,
    ensures
        sum_prefix(ws, a) <= sum_prefix(ws, b),
    decreases b - a,
{
    if a < b {
        lemma_sum_prefix_mono(ws, a, b - 1);
    }
}

/// With positive weights, the total is at least the number of weights.
pub proof fn lemma_sum_prefix_at_least(ws: Seq<u64>, k: int)
    requires
        k <= ws.len(),
        forall|i: int| 0 <= i < ws.len() ==> ws[i] > 0,
    ensures
        sum_prefix(ws, k) >= k,
    decreases k,
{
    if k > 0 {
        lemma_sum_prefix_at_least(ws, k - 1);
    }
}

/// Relies on rand::random_range over the range `0..n`: the draw lies in
/// the range. Nothing more is assumed of it; every caller must be correct
/// for every value below `n`.
#[verifier::external_body]
fn random_below(n: u128) -> (r: u128)
    requires
        n > 0,
    ensures
        r < n,
{
    rand::random_range(0..n)
}

/// The index a draw `r` denotes: the unique `i` whose cumulative weight
/// interval contains `r`. Deterministic, so selection sequences can be
/// reproduced by supplying the draws.
pub fn weighted_index(ws: &Vec<u64>, r: u128) -> (i: usize)
    requires
        valid_weights(ws@),
        r < sum_prefix(ws@, ws@.len() as int),
        sum_prefix(ws@, ws@.len() as int) <= u128::MAX as int,
    ensures
        i < ws@.len(),
        sum_prefix(ws@, i as int) <= r as int,
        (r as int) < sum_prefix(ws@, i as int) + ws@[i as int],
{
    let ghost total = sum_prefix(ws@, ws@.len() as int);
    let mut i: usize = 0;
    let mut acc: u128 = 0;
    while i < ws.len()
        invariant
            valid_weights(ws@),
            r < total,
            total == sum_prefix(ws@, ws@.len() as int),
            total <= u128::MAX as int,
            i <= ws@.len(),
            acc == sum_prefix(ws@, i as int),
            acc <= r,
        decreases ws@.len() - i,
    {
        let w = ws[i];
        proof {
            assert(sum_prefix(ws@, i + 1) == acc + w);
            lemma_sum_prefix_mono(ws@, i + 1, ws@.len() as int);
        }
        if r < acc + w as u128 {
            return i;
        }
        acc = acc + w as u128;
        i = i + 1;
    }
    proof {
        assert(false);
    }
    0
}

/// Weighted random choice of an index into a weight list: some index
/// with positive weight, chosen with probability proportional to its
/// weight; fails with `InvalidDistribution` exactly when the list is
/// empty or holds a weight that is not strictly positive.
pub fn weighted_pick(ws: &Vec<u64>) -> (r: Result<usize, MarkovError>)
    ensures
        r is Ok <==> valid_weights(ws@),
        r is Ok ==> r->Ok_0 < ws@.len() && ws@[r->Ok_0 as int] > 0,
        r is Err ==> r == Err::<usize, MarkovError>(MarkovError::InvalidDistribution),
{
    if ws.len() == 0 {
        return Err(MarkovError::InvalidDistribution);
    }
    let mut k: usize = 0;
    while k < ws.len()
        invariant
            k <= ws@.len(),
            forall|j: int| 0 <= j < k ==> ws@[j] > 0,
        decreases ws@.len() - k,
    {
        if ws[k] == 0 {
            return Err(MarkovError::InvalidDistribution);
        }
        k = k + 1;
    }
    let mut total: u128 = 0;
    let mut t: usize = 0;
    while t < ws.len()
        invariant
            t <= ws@.len(),
            total == sum_prefix(ws@, t as int),
            total <= t * (u64::MAX as int),
        decreases ws@.len() - t,
    {
        proof {
            assert((t + 1) * (u64::MAX as int) == t * (u64::MAX as int) + u64::MAX as int)
                by (nonlinear_arith);
            assert((t + 1) * (u64::MAX as int) <= u128::MAX as int) by (nonlinear_arith)
                requires
                    0 <= t + 1 <= 0x1_0000_0000_0000_0000,
            ;
        }
        total = total + ws[t] as u128;
        t = t + 1;
    }
    proof {
        lemma_sum_prefix_at_least(ws@, ws@.len() as int);
    }
    let r = random_below(total);
    let i = weighted_index(ws, r);
    Ok(i)
}

/// Weighted random choice over `(item, weight)` pairs. Returns some item
/// whose weight is positive, chosen with probability proportional to its
/// weight; fails with `InvalidDistribution` exactly when the input is
/// empty or holds a weight that is not strictly positive.
pub fn weighted_choice(items: &Vec<(Token, u64)>) -> (r: Result<Token, MarkovError>)
    ensures
        r is Ok <==> valid_dist(items@),
        r is Ok ==> exists|i: int|
            0 <= i < items@.len() && (#[trigger] items@[i]).1 > 0 && r->Ok_0@ == items@[i].0@,
        r is Err ==> r == Err::<Token, MarkovError>(MarkovError::InvalidDistribution),
{
    let mut ws: Vec<u64> = Vec::new();
    let mut k: usize = 0;
    while k < items.len()
        invariant
            k <= items@.len(),
            ws@.len() == k,
            forall|j: int| 0 <= j < k ==> ws@[j] == (#[trigger] items@[j]).1,
        decreases items@.len() - k,
    {
        ws.push(items[k].1);
        k = k + 1;
    }
    proof {
        assert(valid_weights(ws@) <==> valid_dist(items@)) by {
            if valid_dist(items@) {
                assert forall|j: int| 0 <= j < ws@.len() implies ws@[j] > 0 by {
                    assert(items@[j].1 > 0);
                }
            }
            if valid_weights(ws@) {
                assert forall|j: int| 0 <= j < items@.len() implies (#[trigger] items@[j]).1
                    > 0 by {
                    assert(ws@[j] > 0);
                }
            }
        }
    }
    match weighted_pick(&ws) {
        Ok(i) => {
            let t = dup_token(&items[i].0);
            proof {
                assert(items@[i as int].1 > 0 && t@ == items@[i as int].0@);
            }
            Ok(t)
        },
        Err(e) => Err(e),
    }
}

} // verus!
