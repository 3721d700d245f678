//! The pairs of groups over which a free-for-all is averaged.

use crate::shape::ShapeError;
use itertools::Itertools;
use vstd::prelude::*;

verus! {

/// The number of ways to pick two of `n` groups.
pub open spec fn pair_count(n: nat) -> nat {
    if n < 2 {
        0
    } else {
        (n * (n - 1) / 2) as nat
    }
}

/// The order of the pairs: by the first index, then by the second.
pub open spec fn comes_before(a: (usize, usize), b: (usize, usize)) -> bool {
    a.0 < b.0 || (a.0 == b.0 && a.1 < b.1)
}

/// Whether `pairs` lists every pair `(i, j)` with `i < j < n`, and nothing
/// else, in order.
pub open spec fn is_pair_schedule(pairs: Seq<(usize, usize)>, n: nat) -> bool {
    &&& forall|k: int| 0 <= k < pairs.len() ==> (#[trigger] pairs[k]).0 < pairs[k].1 < n
    &&& forall|k: int, l: int|
        0 <= k < l < pairs.len() ==> comes_before(#[trigger] pairs[k], #[trigger] pairs[l])
    &&& forall|i: usize, j: usize| i < j < n ==> #[trigger] pairs.contains((i, j))
}

/// `Itertools::combinations` of length two over the indices `0..n`, each
/// combination handed out as a pair: every pair of two different indices
/// below `n`, the smaller index first, in lexicographic order. The pairs
/// must fit in one allocation.
#[verifier::external_body]
fn index_pairs(n: usize) -> (pairs: Vec<(usize, usize)>)
    requires
        pair_count(n as nat) * 64 <= isize::MAX,
    ensures
        is_pair_schedule(pairs@, n as nat),
{
    (0..n).combinations(2).map(|p| (p[0], p[1])).collect()
}

/// How many pairs `(a, b)` with `a < b < n` have `a < i`.
pub open spec fn row_start(i: nat, n: nat) -> int
    decreases i,
{
    if i == 0 {
        0
    } else {
        row_start((i - 1) as nat, n) + (n - i)
    }
}

/// The place of the pair `p` among the pairs below `n`.
pub open spec fn rank(p: (usize, usize), n: nat) -> int {
    row_start(p.0 as nat, n) + p.1 - p.0 - 1
}

/// The closed form of `row_start`.
proof fn lemma_row_start_closed(i: nat, n: nat)
    ensures
        2 * row_start(i, n) == i * (2 * n - i - 1),
    decreases i,
{
    let a: int = i as int;
    let b: int = n as int;
    if i > 0 {
        lemma_row_start_closed((i - 1) as nat, n);
        assert((a - 1) * (2 * b - (a - 1) - 1) + 2 * (b - a) == a * (2 * b - a - 1))
            by (nonlinear_arith);
    } else {
        assert(a * (2 * b - a - 1) == 0) by (nonlinear_arith)
            requires
                a == 0,
        ;
    }
}

/// The pair that follows `p` among the pairs below `n`.
spec fn following(p: (usize, usize), n: nat) -> (usize, usize) {
    if p.1 + 1 < n {
        (p.0, (p.1 + 1) as usize)
    } else {
        ((p.0 + 1) as usize, (p.0 + 2) as usize)
    }
}

/// A schedule starts with the pair `(0, 1)`, and each later pair is the
/// one that follows the pair before it.
proof fn lemma_schedule_step(pairs: Seq<(usize, usize)>, n: nat, k: int)
    requires
        is_pair_schedule(pairs, n),
        n <= usize::MAX,
        0 <= k < pairs.len(),
    ensures
        k == 0 ==> pairs[0] == (0usize, 1usize),
        k > 0 ==> pairs[k] == following(pairs[k - 1], n),
{
    if k == 0 {
        let first: (usize, usize) = (0usize, 1usize);
        assert(pairs[0].0 < pairs[0].1 < n);
        assert(pairs.contains(first));
        let l = choose|l: int| 0 <= l < pairs.len() && pairs[l] == first;
        if l > 0 {
            assert(comes_before(pairs[0], pairs[l]));
        }
    } else {
        let p = pairs[k - 1];
        let q = pairs[k];
        assert(p.0 < p.1 < n);
        assert(q.0 < q.1 < n);
        assert(comes_before(p, q));
        let s = following(p, n);
        assert(s.0 < s.1 < n);
        assert(pairs.contains(s));
        let l = choose|l: int| 0 <= l < pairs.len() && pairs[l] == s;
        if l < k - 1 {
            assert(comes_before(pairs[l], pairs[k - 1]));
        }
        if l > k {
            assert(comes_before(pairs[k], pairs[l]));
        }
        assert(l == k);
    }
}

/// In a schedule each pair stands at the place that its rank gives.
pub proof fn lemma_schedule_rank(pairs: Seq<(usize, usize)>, n: nat, k: int)
    requires
        is_pair_schedule(pairs, n),
        n <= usize::MAX,
        0 <= k < pairs.len(),
    ensures
        rank(pairs[k], n) == k,
    decreases k,
{
    lemma_schedule_step(pairs, n, k);
    if k == 0 {
        assert(row_start(0, n) == 0);
    } else {
        lemma_schedule_rank(pairs, n, k - 1);
        let p = pairs[k - 1];
        assert(p.0 < p.1 < n);
        assert(row_start((p.0 + 1) as nat, n) == row_start(p.0 as nat, n) + (n - (p.0 + 1)));
    }
}

/// There is one schedule for `n` groups: two schedules are the same
/// sequence.
pub proof fn lemma_schedule_unique(
    pairs: Seq<(usize, usize)>,
    others: Seq<(usize, usize)>,
    n: nat,
)
    requires
        is_pair_schedule(pairs, n),
        is_pair_schedule(others, n),
        n <= usize::MAX,
    ensures
        pairs == others,
{
    lemma_schedule_length(pairs, n);
    lemma_schedule_length(others, n);
    assert forall|k: int| 0 <= k < pairs.len() implies pairs[k] == others[k] by {
        lemma_same_pair(pairs, others, n, k);
    }
    assert(pairs =~= others);
}

/// Two schedules for `n` groups hold the same pair at place `k`.
proof fn lemma_same_pair(
    pairs: Seq<(usize, usize)>,
    others: Seq<(usize, usize)>,
    n: nat,
    k: int,
)
    requires
        is_pair_schedule(pairs, n),
        is_pair_schedule(others, n),
        n <= usize::MAX,
        0 <= k < pairs.len(),
        k < others.len(),
    ensures
        pairs[k] == others[k],
    decreases k,
{
    lemma_schedule_step(pairs, n, k);
    lemma_schedule_step(others, n, k);
    if k > 0 {
        lemma_same_pair(pairs, others, n, k - 1);
    }
}

/// A schedule for `n` groups holds `pair_count(n)` pairs.
pub proof fn lemma_schedule_length(pairs: Seq<(usize, usize)>, n: nat)
    requires
        is_pair_schedule(pairs, n),
        n <= usize::MAX,
    ensures
        pairs.len() == pair_count(n),
{
    if n < 2 {
        if pairs.len() > 0 {
            assert(pairs[0].0 < pairs[0].1 < n);
        }
    } else {
        let last: (usize, usize) = ((n - 2) as usize, (n - 1) as usize);
        assert(pairs.contains(last));
        let l = choose|l: int| 0 <= l < pairs.len() && pairs[l] == last;
        if l + 1 < pairs.len() {
            assert(comes_before(pairs[l], pairs[l + 1]));
            assert(pairs[l + 1].0 < pairs[l + 1].1 < n);
        }
        lemma_schedule_rank(pairs, n, l);
        lemma_row_start_closed((n - 2) as nat, n);
        assert((n - 2) * (2 * n - (n - 2) - 1) + 2 == n * (n - 1)) by (nonlinear_arith);
    }
}

/// The pairs of groups of a free-for-all among `group_count` groups, in
/// order; refused for fewer than two groups.
pub fn pair_indices(group_count: usize) -> (r: Result<Vec<(usize, usize)>, ShapeError>)
    requires
        pair_count(group_count as nat) * 64 <= isize::MAX,
    ensures
        group_count < 2 ==> r matches Err(ShapeError::TooFewGroups),
        group_count >= 2 ==> r is Ok,
        r matches Ok(pairs) ==> is_pair_schedule(pairs@, group_count as nat) && pairs@.len()
            == pair_count(group_count as nat),
{
    if group_count < 2 {
        return Err(ShapeError::TooFewGroups);
    }
    let pairs = index_pairs(group_count);
    proof {
        lemma_schedule_length(pairs@, group_count as nat);
    }
    Ok(pairs)
}

} // verus!
