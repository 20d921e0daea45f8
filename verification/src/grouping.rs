//! How the review dimensions are cut into averaged groups.
//!
//! Walking the dimensions in order, group `r` closes at the first dimension `p`
//! (from where it starts) with `p >= bound(r) - 1`, where `bound(r)` is
//! `ranges[r]`, or, past the end of `ranges`, the number of weights as a byte.
//! Dimensions after the last closed group belong to no group.
use vstd::prelude::*;
use crate::org::Org;

verus! {

/// The bound that closes group `r`.
pub open spec fn group_bound(ranges: Seq<u8>, n_weights: nat, r: nat) -> int {
    if r < ranges.len() {
        ranges[r as int] as int
    } else {
        (n_weights % 256) as int
    }
}

/// The last dimension of group `r`.
pub open spec fn group_end(ranges: Seq<u8>, n_weights: nat, r: nat) -> int
    decreases r,
{
    let start = if r == 0 { 0 } else { group_end(ranges, n_weights, (r - 1) as nat) + 1 };
    let bound_last = group_bound(ranges, n_weights, r) - 1;
    if bound_last > start { bound_last } else { start }
}

/// The first dimension of group `r`.
pub open spec fn group_start(ranges: Seq<u8>, n_weights: nat, r: nat) -> int {
    if r == 0 { 0 } else { group_end(ranges, n_weights, (r - 1) as nat) + 1 }
}

/// Exactly `k` groups close among `n` dimensions.
pub open spec fn group_count_is(ranges: Seq<u8>, n_weights: nat, n: nat, k: nat) -> bool {
    &&& group_end(ranges, n_weights, k) >= n
    &&& k > 0 ==> group_end(ranges, n_weights, (k - 1) as nat) < n
}

/// Walking `n` dimensions never needs a group bound that is missing or zero.
pub open spec fn grouping_defined(ranges: Seq<u8>, n_weights: nat, n: nat) -> bool {
    n > 0 ==> {
        &&& ranges.len() >= 1
        &&& forall|r: nat| group_start(ranges, n_weights, r) < n ==> #[trigger] group_bound(ranges, n_weights, r) >= 1
    }
}

/// A closed group: the dimensions `first..=last`.
#[derive(Clone, Copy, Debug, PartialEq, Eq)]
pub struct ScoreGroup {
    pub first: usize,
    pub last: usize,
}

/// `groups` lists, in order, the groups that close among `n` dimensions.
pub open spec fn is_grouping(ranges: Seq<u8>, n_weights: nat, n: nat, groups: Seq<ScoreGroup>) -> bool {
    &&& group_count_is(ranges, n_weights, n, groups.len())
    &&& forall|r: int| 0 <= r < groups.len() ==> {
        &&& (#[trigger] groups[r]).first == group_start(ranges, n_weights, r as nat)
        &&& groups[r].last == group_end(ranges, n_weights, r as nat)
    }
}

/// Groups end strictly after they start ... and after the previous group.
pub proof fn lemma_group_end_increasing(ranges: Seq<u8>, n_weights: nat, r: nat, s: nat)
    requires
        r < s,
    ensures
        group_end(ranges, n_weights, r) < group_start(ranges, n_weights, s),
        group_start(ranges, n_weights, s) <= group_end(ranges, n_weights, s),
    decreases s,
{
    if r + 1 < s {
        lemma_group_end_increasing(ranges, n_weights, r, (s - 1) as nat);
    }
}

/// Every group starts no later than it ends.
pub proof fn lemma_group_nonempty(ranges: Seq<u8>, n_weights: nat, r: nat)
    ensures
        group_start(ranges, n_weights, r) <= group_end(ranges, n_weights, r),
        r <= group_start(ranges, n_weights, r),
    decreases r,
{
    if r > 0 {
        lemma_group_nonempty(ranges, n_weights, (r - 1) as nat);
    }
}

/// With `k` groups closing among `n` dimensions, group `r` closes exactly when `r < k`.
pub proof fn lemma_group_count(ranges: Seq<u8>, n_weights: nat, n: nat, k: nat, r: nat)
    requires
        group_count_is(ranges, n_weights, n, k),
    ensures
        r < k <==> group_end(ranges, n_weights, r) < n,
{
    if r < k {
        if r + 1 < k {
            lemma_group_end_increasing(ranges, n_weights, r, (k - 1) as nat);
            lemma_group_nonempty(ranges, n_weights, (k - 1) as nat);
        }
    } else if r > k {
        lemma_group_end_increasing(ranges, n_weights, k, r);
    }
}

/// The walk over the dimensions: the first group starts at dimension 0, each
/// group starts right after the previous one ends, and a group ends at its
/// bound less one, or where it starts when that is later.
pub proof fn lemma_group_walk(ranges: Seq<u8>, n_weights: nat, r: nat)
    ensures
        group_start(ranges, n_weights, 0) == 0,
        group_start(ranges, n_weights, r + 1) == group_end(ranges, n_weights, r) + 1,
        group_end(ranges, n_weights, r) == (if group_bound(ranges, n_weights, r) - 1 > group_start(ranges, n_weights, r) {
            group_bound(ranges, n_weights, r) - 1
        } else {
            group_start(ranges, n_weights, r)
        }),
{
}

/// `ranges` are positive, strictly ascending, and below the number of weights
/// taken as a byte.
pub open spec fn ranges_ascending(ranges: Seq<u8>, n_weights: nat) -> bool {
    &&& ranges.len() >= 1
    &&& ranges[0] >= 1
    &&& forall|i: int, j: int| 0 <= i < j < ranges.len() ==> ranges[i] < ranges[j]
    &&& ranges.last() < n_weights % 256
}

/// With ascending ranges, group `r` before the last is exactly the dimensions
/// `ranges[r - 1]..=ranges[r] - 1` (from 0 for the first group), and the last
/// group is `ranges.last()..=` the number of weights (as a byte) less one.
pub proof fn lemma_groups_follow_ascending_ranges(ranges: Seq<u8>, n_weights: nat, r: nat)
    requires
        ranges_ascending(ranges, n_weights),
        r <= ranges.len(),
    ensures
        r < ranges.len() ==> {
            &&& group_start(ranges, n_weights, r) == (if r == 0 { 0 } else { ranges[r - 1] as int })
            &&& group_end(ranges, n_weights, r) == ranges[r as int] - 1
        },
        r == ranges.len() ==> {
            &&& group_start(ranges, n_weights, r) == ranges.last() as int
            &&& group_end(ranges, n_weights, r) == (n_weights % 256) - 1
        },
    decreases r,
{
    if r > 0 {
        lemma_groups_follow_ascending_ranges(ranges, n_weights, (r - 1) as nat);
        if r < ranges.len() {
            assert(ranges[r - 1] < ranges[r as int]);
        }
    }
}


/// Walks `dims` dimensions as the scoring does; `None` where a group bound is
/// missing or zero.
pub fn plan_groups(org: &Org, dims: usize) -> (groups: Option<Vec<ScoreGroup>>)
    ensures
        groups is Some <==> grouping_defined(org.ranges@, org.weights.len() as nat, dims as nat),
        groups matches Some(g) ==> is_grouping(org.ranges@, org.weights.len() as nat, dims as nat, g@),
{
    let ghost ranges = org.ranges@;
    let ghost nw = org.weights.len() as nat;
    let mut groups: Vec<ScoreGroup> = Vec::new();
    if dims == 0 {
        proof {
            lemma_group_nonempty(ranges, nw, 0);
        }
        return Some(groups);
    }
    if org.ranges.len() == 0 {
        return None;
    }
    let mut r: usize = 0;
    let mut start: usize = 0;
    let mut p: usize = 0;
    while p < dims
        invariant
            ranges == org.ranges@,
            nw == org.weights.len(),
            ranges.len() >= 1,
            p <= dims,
            r <= p,
            groups.len() == r,
            start == group_start(ranges, nw, r as nat),
            start <= p,
            p <= group_end(ranges, nw, r as nat),
            forall|i: int| 0 <= i < r ==> {
                &&& (#[trigger] groups@[i]).first == group_start(ranges, nw, i as nat)
                &&& groups@[i].last == group_end(ranges, nw, i as nat)
            },
            r > 0 ==> group_end(ranges, nw, (r - 1) as nat) < p,
            forall|q: nat| q <= r && group_start(ranges, nw, q) < p ==> #[trigger] group_bound(ranges, nw, q) >= 1,
        decreases dims - p,
    {
        let ghost r0 = r;
        let ghost p0 = p;
        let next: u8 = if r >= org.ranges.len() {
            (org.weights.len() % 256) as u8
        } else {
            org.ranges[r]
        };
        assert(next as int == group_bound(ranges, nw, r as nat));
        if next == 0 {
            return None;
        }
        if p >= next as usize - 1 {
            groups.push(ScoreGroup { first: start, last: p });
            proof {
                lemma_group_nonempty(ranges, nw, (r + 1) as nat);
            }
            r = r + 1;
            start = p + 1;
        }
        p = p + 1;
        proof {
            assert forall|q: nat| q <= r && group_start(ranges, nw, q) < p implies #[trigger] group_bound(ranges, nw, q) >= 1 by {
                if q < r0 {
                    lemma_group_nonempty(ranges, nw, q);
                    if q + 1 < r0 {
                        lemma_group_end_increasing(ranges, nw, q, (r0 - 1) as nat);
                        lemma_group_nonempty(ranges, nw, (r0 - 1) as nat);
                    }
                    assert(group_start(ranges, nw, q) < p0);
                }
            }
        }
    }
    proof {
        assert forall|q: nat| group_start(ranges, nw, q) < dims implies #[trigger] group_bound(ranges, nw, q) >= 1 by {
            if q > r {
                lemma_group_end_increasing(ranges, nw, r as nat, q);
            }
        }
    }
    Some(groups)
}

/// The groups that close among `dims` dimensions, in order.
pub fn score_groups(org: &Org, dims: usize) -> (groups: Vec<ScoreGroup>)
    requires
        grouping_defined(org.ranges@, org.weights.len() as nat, dims as nat),
    ensures
        is_grouping(org.ranges@, org.weights.len() as nat, dims as nat, groups@),
{
    plan_groups(org, dims).unwrap()
}

} // verus!
