//! Levels: the level a score earns against a threshold list, and the one-step
//! move of a contributor's levels toward the levels it earns.
use vstd::prelude::*;
use crate::ieee::{value_lt, value_le};

verus! {

/// `k` is the level that `score` earns against `thresholds`: the first `k`
/// thresholds lie strictly below the score, and the next one (if any) does not.
pub open spec fn earns_level(thresholds: Seq<u32>, score: u32, k: int) -> bool {
    &&& 0 <= k <= thresholds.len()
    &&& forall|j: int| 0 <= j < k ==> value_lt(#[trigger] thresholds[j], score)
    &&& k < thresholds.len() ==> !value_lt(thresholds[k], score)
}

/// The level that `score` earns against `thresholds` fits in a `u8`: the count
/// of leading thresholds below the score never reaches 256.
pub open spec fn level_fits_u8(thresholds: Seq<u32>, score: u32) -> bool {
    thresholds.len() <= 255 || exists|j: int| 0 <= j < 256 && !value_lt(#[trigger] thresholds[j], score)
}

/// `d` is the first position at which `levels` and `target` differ.
pub open spec fn first_difference(levels: Seq<u8>, target: Seq<u8>, d: int) -> bool {
    &&& 0 <= d < levels.len()
    &&& d < target.len()
    &&& levels[d] != target[d]
    &&& forall|j: int| 0 <= j < d ==> levels[j] == target[j]
}

/// Walking `levels` from the front never reaches a position that `target` lacks
/// before the first difference.
pub open spec fn step_defined(levels: Seq<u8>, target: Seq<u8>) -> bool {
    levels.len() <= target.len() || exists|d: int| 0 <= d < target.len() && levels[d] != target[d]
}

/// `levels` moved one step toward `target`: at the first position where they
/// differ, the level goes up or down by one; every other level stays.
pub open spec fn step_toward(levels: Seq<u8>, target: Seq<u8>) -> Seq<u8> {
    if exists|d: int| first_difference(levels, target, d) {
        let d = choose|d: int| first_difference(levels, target, d);
        if levels[d] < target[d] {
            levels.update(d, (levels[d] + 1) as u8)
        } else {
            levels.update(d, (levels[d] - 1) as u8)
        }
    } else {
        levels
    }
}

/// Sum over the positions of `a` of the distance to the level at the same
/// position of `b`.
pub open spec fn level_distance(a: Seq<u8>, b: Seq<u8>) -> nat
    decreases a.len(),
{
    if a.len() == 0 || b.len() == 0 {
        0
    } else {
        let d = if a[0] >= b[0] { (a[0] - b[0]) as nat } else { (b[0] - a[0]) as nat };
        d + level_distance(a.drop_first(), b.drop_first())
    }
}

/// Counts the leading thresholds that lie strictly below `score`.
pub fn earned_level(thresholds: &Vec<u32>, score: u32) -> (level: u8)
    requires
        level_fits_u8(thresholds@, score),
    ensures
        earns_level(thresholds@, score, level as int),
{
    let mut level: u8 = 0;
    let mut i: usize = 0;
    while i < thresholds.len()
        invariant
            i <= thresholds.len(),
            level as int == i,
            level_fits_u8(thresholds@, score),
            forall|j: int| 0 <= j < i ==> value_lt(#[trigger] thresholds@[j], score),
        decreases thresholds.len() - i,
    {
        if crate::ieee::less_than(thresholds[i], score) {
            if level == 255 {
                proof {
                    let w = choose|j: int| 0 <= j < 256 && !value_lt(#[trigger] thresholds@[j], score);
                    assert(value_lt(thresholds@[w], score));
                }
            }
            level = level + 1;
            i = i + 1;
        } else {
            return level;
        }
    }
    level
}

/// Whether the level that `score` earns against `thresholds` fits in a `u8`.
pub fn level_fits(thresholds: &Vec<u32>, score: u32) -> (fits: bool)
    ensures
        fits == level_fits_u8(thresholds@, score),
{
    if thresholds.len() <= 255 {
        return true;
    }
    let mut i: usize = 0;
    while i < 256
        invariant
            i <= 256,
            thresholds.len() > 255,
            forall|j: int| 0 <= j < i ==> value_lt(#[trigger] thresholds@[j], score),
        decreases 256 - i,
    {
        if !crate::ieee::less_than(thresholds[i], score) {
            return true;
        }
        i = i + 1;
    }
    false
}

/// Moves `levels` one step toward `target` (see `step_toward`).
pub fn next_level(levels: &Vec<u8>, target: &Vec<u8>) -> (next: Vec<u8>)
    requires
        step_defined(levels@, target@),
    ensures
        next@ == step_toward(levels@, target@),
{
    let mut next = levels.clone();
    let mut p: usize = 0;
    while p < levels.len()
        invariant
            p <= levels.len(),
            next@ == levels@,
            step_defined(levels@, target@),
            forall|j: int| 0 <= j < p ==> j < target@.len() && levels@[j] == target@[j],
        decreases levels.len() - p,
    {
        if p >= target.len() {
            proof {
                let d = choose|d: int| 0 <= d < target@.len() && levels@[d] != target@[d];
                assert(levels@[d] == target@[d]);
            }
        }
        if levels[p] < target[p] {
            next.set(p, levels[p] + 1);
            proof {
                assert(first_difference(levels@, target@, p as int));
                lemma_first_difference_unique(levels@, target@, p as int);
                assert(next@ == levels@.update(p as int, (levels@[p as int] + 1) as u8));
            }
            return next;
        } else if levels[p] > target[p] {
            next.set(p, levels[p] - 1);
            proof {
                assert(first_difference(levels@, target@, p as int));
                lemma_first_difference_unique(levels@, target@, p as int);
                assert(next@ == levels@.update(p as int, (levels@[p as int] - 1) as u8));
            }
            return next;
        }
        p = p + 1;
    }
    proof {
        if exists|d: int| first_difference(levels@, target@, d) {
            let d = choose|d: int| first_difference(levels@, target@, d);
            assert(levels@[d] == target@[d]);
        }
    }
    next
}

/// The first difference, when there is one, is the one `step_toward` picks.
pub proof fn lemma_first_difference_unique(levels: Seq<u8>, target: Seq<u8>, d: int)
    requires
        first_difference(levels, target, d),
    ensures
        (choose|e: int| first_difference(levels, target, e)) == d,
{
    let e = choose|e: int| first_difference(levels, target, e);
    if e < d {
        assert(levels[e] == target[e]);
    } else if d < e {
        assert(levels[d] == target[d]);
    }
}

/// A score earns a single level against a threshold list.
pub proof fn lemma_earned_level_unique(thresholds: Seq<u32>, score: u32, k1: int, k2: int)
    requires
        earns_level(thresholds, score, k1),
        earns_level(thresholds, score, k2),
    ensures
        k1 == k2,
{
    if k1 < k2 {
        assert(value_lt(thresholds[k1], score));
    } else if k2 < k1 {
        assert(value_lt(thresholds[k2], score));
    }
}

/// A higher score never earns a lower level against the same thresholds.
pub proof fn lemma_earned_level_monotone(thresholds: Seq<u32>, a: u32, b: u32, ka: int, kb: int)
    requires
        value_le(a, b),
        earns_level(thresholds, a, ka),
        earns_level(thresholds, b, kb),
    ensures
        ka <= kb,
{
    if kb < ka {
        assert(value_lt(thresholds[kb], a));
        crate::ieee::lemma_lt_le_transitive(thresholds[kb], a, b);
    }
}

/// Against ascending thresholds, the level earned counts every threshold that
/// lies below the score: none of the thresholds past it does.
pub proof fn lemma_earned_level_ascending(thresholds: Seq<u32>, score: u32, k: int)
    requires
        forall|i: int, j: int| 0 <= i < j < thresholds.len() ==> value_le(#[trigger] thresholds[i], #[trigger] thresholds[j]),
        earns_level(thresholds, score, k),
    ensures
        forall|j: int| k <= j < thresholds.len() ==> !value_lt(#[trigger] thresholds[j], score),
{
    assert forall|j: int| k <= j < thresholds.len() implies !value_lt(#[trigger] thresholds[j], score) by {
        if j > k && value_lt(thresholds[j], score) {
            assert(value_le(thresholds[k], thresholds[j]));
            crate::ieee::lemma_le_lt_transitive(thresholds[k], thresholds[j], score);
        }
    }
}

/// A step keeps the number of levels.
pub proof fn lemma_step_len(levels: Seq<u8>, target: Seq<u8>)
    ensures
        step_toward(levels, target).len() == levels.len(),
{
}

/// How many of `thresholds` lie strictly below `score`.
pub open spec fn count_below(thresholds: Seq<u32>, score: u32) -> nat
    decreases thresholds.len(),
{
    if thresholds.len() == 0 {
        0
    } else {
        count_below(thresholds.drop_last(), score) + if value_lt(thresholds.last(), score) { 1nat } else { 0nat }
    }
}

proof fn lemma_count_below_prefix(thresholds: Seq<u32>, score: u32, k: int, m: int)
    requires
        0 <= k <= thresholds.len(),
        0 <= m <= thresholds.len(),
        forall|j: int| 0 <= j < k ==> value_lt(#[trigger] thresholds[j], score),
        forall|j: int| k <= j < thresholds.len() ==> !value_lt(#[trigger] thresholds[j], score),
    ensures
        count_below(thresholds.subrange(0, m), score) == if m < k { m } else { k },
    decreases m,
{
    let pre = thresholds.subrange(0, m);
    if m > 0 {
        lemma_count_below_prefix(thresholds, score, k, m - 1);
        assert(pre.drop_last() =~= thresholds.subrange(0, m - 1));
        assert(pre.last() == thresholds[m - 1]);
    }
}

/// Against thresholds ascending as the configuration lists them, the level a
/// score earns is the number of thresholds strictly below it.
pub proof fn lemma_earned_level_counts_below(thresholds: Seq<u32>, score: u32, k: int)
    requires
        forall|i: int, j: int| 0 <= i < j < thresholds.len() ==> value_le(#[trigger] thresholds[i], #[trigger] thresholds[j]),
        earns_level(thresholds, score, k),
    ensures
        k == count_below(thresholds, score),
{
    lemma_earned_level_ascending(thresholds, score, k);
    lemma_count_below_prefix(thresholds, score, k, thresholds.len() as int);
    assert(thresholds.subrange(0, thresholds.len() as int) =~= thresholds);
}

/// Levels that already equal their target do not move.
pub proof fn lemma_step_at_target(levels: Seq<u8>)
    ensures
        step_toward(levels, levels) == levels,
{
    assert(!exists|d: int| first_difference(levels, levels, d));
}

/// Changing one level changes the distance by the change at that position.
proof fn lemma_distance_update(a: Seq<u8>, b: Seq<u8>, i: int, v: u8)
    requires
        0 <= i < a.len(),
        i < b.len(),
    ensures
        level_distance(a.update(i, v), b) + (if a[i] >= b[i] { a[i] - b[i] } else { b[i] - a[i] })
            == level_distance(a, b) + (if v >= b[i] { v - b[i] } else { b[i] - v }),
    decreases a.len(),
{
    if i > 0 {
        assert(a.update(i, v).drop_first() =~= a.drop_first().update(i - 1, v));
        lemma_distance_update(a.drop_first(), b.drop_first(), i - 1, v);
    } else {
        assert(a.update(i, v).drop_first() =~= a.drop_first());
    }
}

/// Distance zero between sequences of one length means they are equal.
proof fn lemma_distance_zero(a: Seq<u8>, b: Seq<u8>)
    requires
        a.len() == b.len(),
        level_distance(a, b) == 0,
    ensures
        a == b,
    decreases a.len(),
{
    if a.len() > 0 {
        lemma_distance_zero(a.drop_first(), b.drop_first());
        assert(a =~= seq![a[0]] + a.drop_first());
        assert(b =~= seq![b[0]] + b.drop_first());
    } else {
        assert(a =~= b);
    }
}

/// One step toward the target moves exactly one level by one, toward the
/// target, so the distance to the target drops by exactly one; repeated steps
/// reach the target after as many steps as the distance.
pub proof fn lemma_step_approaches(levels: Seq<u8>, target: Seq<u8>)
    requires
        levels.len() == target.len(),
        levels != target,
    ensures
        step_toward(levels, target).len() == levels.len(),
        level_distance(step_toward(levels, target), target) + 1 == level_distance(levels, target),
        exists|d: int| #![trigger first_difference(levels, target, d)]
            first_difference(levels, target, d)
            && step_toward(levels, target)[d] != levels[d]
            && forall|j: int| 0 <= j < levels.len() && j != d ==> step_toward(levels, target)[j] == levels[j],
{
    if !exists|d: int| first_difference(levels, target, d) {
        assert forall|j: int| 0 <= j < levels.len() implies levels[j] == target[j] by {
            if levels[j] != target[j] {
                lemma_first_difference_exists(levels, target, j);
            }
        }
        assert(levels =~= target);
    }
    let d = choose|d: int| first_difference(levels, target, d);
    let v: u8 = if levels[d] < target[d] { (levels[d] + 1) as u8 } else { (levels[d] - 1) as u8 };
    lemma_distance_update(levels, target, d, v);
}

/// Where two sequences of one length differ at `j`, there is a first difference.
proof fn lemma_first_difference_exists(levels: Seq<u8>, target: Seq<u8>, j: int)
    requires
        levels.len() == target.len(),
        0 <= j < levels.len(),
        levels[j] != target[j],
    ensures
        exists|d: int| first_difference(levels, target, d),
    decreases j,
{
    if forall|i: int| 0 <= i < j ==> levels[i] == target[i] {
        assert(first_difference(levels, target, j));
    } else {
        let i = choose|i: int| 0 <= i < j && levels[i] != target[i];
        lemma_first_difference_exists(levels, target, i);
    }
}

/// Levels at distance zero from their target are the target.
pub proof fn lemma_distance_zero_at_target(levels: Seq<u8>, target: Seq<u8>)
    requires
        levels.len() == target.len(),
    ensures
        level_distance(levels, target) == 0 <==> levels == target,
{
    if level_distance(levels, target) == 0 {
        lemma_distance_zero(levels, target);
    }
    if levels == target {
        lemma_distance_self(levels);
    }
}

proof fn lemma_distance_self(a: Seq<u8>)
    ensures
        level_distance(a, a) == 0,
    decreases a.len(),
{
    if a.len() > 0 {
        lemma_distance_self(a.drop_first());
    }
}

/// Every score earns some level against every threshold list.
pub proof fn lemma_earned_level_exists(thresholds: Seq<u32>, score: u32)
    ensures
        exists|k: int| earns_level(thresholds, score, k),
    decreases thresholds.len(),
{
    if thresholds.len() == 0 {
        assert(earns_level(thresholds, score, 0));
    } else {
        let prefix = thresholds.drop_last();
        lemma_earned_level_exists(prefix, score);
        let k = choose|k: int| earns_level(prefix, score, k);
        assert forall|j: int| 0 <= j < k implies value_lt(#[trigger] thresholds[j], score) by {
            assert(thresholds[j] == prefix[j]);
        }
        if k < prefix.len() {
            assert(thresholds[k] == prefix[k]);
            assert(earns_level(thresholds, score, k));
        } else if value_lt(thresholds.last(), score) {
            assert(earns_level(thresholds, score, thresholds.len() as int));
        } else {
            assert(earns_level(thresholds, score, k));
        }
    }
}

/// A level that fits a byte is at most 255.
pub proof fn lemma_earned_level_fits(thresholds: Seq<u32>, score: u32, k: int)
    requires
        earns_level(thresholds, score, k),
        level_fits_u8(thresholds, score),
    ensures
        k <= 255,
{
    if k > 255 && thresholds.len() > 255 {
        let j = choose|j: int| 0 <= j < 256 && !value_lt(#[trigger] thresholds[j], score);
        assert(value_lt(thresholds[j], score));
    }
}

/// `levels` after `n` steps toward `target`.
pub open spec fn steps_toward(levels: Seq<u8>, target: Seq<u8>, n: nat) -> Seq<u8>
    decreases n,
{
    if n == 0 {
        levels
    } else {
        step_toward(steps_toward(levels, target, (n - 1) as nat), target)
    }
}

/// Against a longer target, a step goes toward the target's prefix of the same length.
proof fn lemma_step_prefix(levels: Seq<u8>, target: Seq<u8>)
    requires
        levels.len() <= target.len(),
    ensures
        step_toward(levels, target) == step_toward(levels, target.subrange(0, levels.len() as int)),
{
    let t = target.subrange(0, levels.len() as int);
    if exists|d: int| first_difference(levels, target, d) {
        let d = choose|d: int| first_difference(levels, target, d);
        assert(first_difference(levels, t, d));
        lemma_first_difference_unique(levels, t, d);
    } else {
        if exists|d: int| first_difference(levels, t, d) {
            let d = choose|d: int| first_difference(levels, t, d);
            assert(first_difference(levels, target, d));
        }
    }
}

/// The distance looks only at the positions both sequences have.
proof fn lemma_distance_prefix(a: Seq<u8>, b: Seq<u8>)
    requires
        a.len() <= b.len(),
    ensures
        level_distance(a, b) == level_distance(a, b.subrange(0, a.len() as int)),
    decreases a.len(),
{
    if a.len() > 0 {
        let t = b.subrange(0, a.len() as int);
        assert(t.drop_first() =~= b.drop_first().subrange(0, a.drop_first().len() as int));
        lemma_distance_prefix(a.drop_first(), b.drop_first());
    }
}

/// Repeated steps toward a target that is at least as long as the levels reach
/// the target's prefix of the levels' length after exactly as many steps as the
/// distance, not before, and stay there.
pub proof fn lemma_steps_reach_target(levels: Seq<u8>, target: Seq<u8>, n: nat)
    requires
        levels.len() <= target.len(),
    ensures
        steps_toward(levels, target, n) == target.subrange(0, levels.len() as int) <==> n >= level_distance(levels, target),
    decreases n,
{
    let t = target.subrange(0, levels.len() as int);
    lemma_distance_prefix(levels, target);
    lemma_steps_distance(levels, target, n);
    let m = steps_toward(levels, target, n);
    lemma_distance_zero_at_target(m, t);
}

/// After `n` steps the levels keep their length and their distance to the
/// target's prefix has dropped by `n`, down to zero.
proof fn lemma_steps_distance(levels: Seq<u8>, target: Seq<u8>, n: nat)
    requires
        levels.len() <= target.len(),
    ensures
        steps_toward(levels, target, n).len() == levels.len(),
        level_distance(steps_toward(levels, target, n), target.subrange(0, levels.len() as int))
            == if n >= level_distance(levels, target.subrange(0, levels.len() as int)) { 0 } else {
                (level_distance(levels, target.subrange(0, levels.len() as int)) - n) as nat
            },
    decreases n,
{
    let t = target.subrange(0, levels.len() as int);
    if n > 0 {
        lemma_steps_distance(levels, target, (n - 1) as nat);
        let prev = steps_toward(levels, target, (n - 1) as nat);
        lemma_step_prefix(prev, target);
        assert(prev.len() == levels.len());
        if prev == t {
            lemma_step_at_target(prev);
            lemma_distance_zero_at_target(prev, t);
        } else {
            lemma_step_approaches(prev, t);
            lemma_distance_zero_at_target(prev, t);
        }
    }
}

} // verus!
