//! A contributor's score within an organization, and the scoring rules on it.
use vstd::prelude::*;
use crate::ieee::is_zero;
use crate::org::Org;
use crate::grouping::{grouping_defined, group_count_is, group_end, is_grouping, plan_groups, ScoreGroup};
use crate::levels::{earns_level, level_fits_u8, step_defined, step_toward};

verus! {

/// A contributor's record within an organization.
///
/// `scores_sum[p]` and `reviews_recieved[p]` total the reviews of dimension `p`;
/// `scores[g]` is the last average computed for group `g`; `levels[g]` is the
/// level reached in group `g`.  Scores and sums are IEEE single-precision values
/// held by their bit patterns.
pub struct Score {
    pub name: String,
    pub scores: Vec<u32>,
    pub scores_sum: Vec<u32>,
    pub applicant: [u8; 32],
    pub mint: [u8; 32],
    pub reviews_recieved: Vec<u16>,
    pub reviews_sent: u16,
    pub levels: Vec<u8>,
    pub last_update: i64,
    pub bump: u8,
}

/// `scores` with the group averages stored in the leading slots, one per group.
pub open spec fn stored_averages(scores: Seq<u32>, averages: Seq<u32>) -> Seq<u32> {
    Seq::new(scores.len(), |i: int| if i < averages.len() { averages[i] } else { scores[i] })
}

/// Review counts after one review: each dimension whose value is not zero counts once more.
pub open spec fn tallied(counts: Seq<u16>, review: Seq<u32>) -> Seq<u16> {
    Seq::new(counts.len(), |p: int| if p < review.len() && !is_zero(review[p]) { (counts[p] + 1) as u16 } else { counts[p] })
}

/// The level that `score` earns against `thresholds`.
pub open spec fn earned(thresholds: Seq<u32>, score: u32) -> int {
    choose|k: int| earns_level(thresholds, score, k)
}

/// The levels that the group scores earn: one per slot of `levels_len`, zero past the scores.
pub open spec fn earned_levels(scores: Seq<u32>, levels_len: nat, org: Org) -> Seq<u8> {
    Seq::new(levels_len, |g: int| if g < scores.len() { earned(org.levels@[g]@, scores[g]) as u8 } else { 0u8 })
}

/// Group score `g` has thresholds and a level slot, and the level it earns fits a byte.
pub open spec fn potential_slot_ok(scores: Seq<u32>, levels_len: nat, org: Org, g: int) -> bool {
    &&& g < org.levels.len()
    &&& g < levels_len
    &&& level_fits_u8(org.levels@[g]@, scores[g])
}

/// Every group score has thresholds and a level slot, and the level it earns fits a byte.
pub open spec fn potential_defined(scores: Seq<u32>, levels_len: nat, org: Org) -> bool {
    forall|g: int| 0 <= g < scores.len() ==> #[trigger] potential_slot_ok(scores, levels_len, org, g)
}

/// Averaging the groups of `n` dimensions, with these review counts and
/// `scores_len` score slots, reaches only dimensions, weights and slots that exist.
pub open spec fn averaging_defined(org: Org, n: nat, reviews: Seq<u16>, scores_len: nat) -> bool {
    &&& grouping_defined(org.ranges@, org.weights.len() as nat, n)
    &&& n > 0 ==> n <= reviews.len()
    &&& forall|p: int| 0 <= p < n && p < reviews.len() && #[trigger] reviews[p] != 0 ==> p < org.weights.len()
    &&& forall|r: nat| #[trigger] group_end(org.ranges@, org.weights.len() as nat, r) < n ==> r < scores_len
}

/// Reconciling a record with `n` dimensions, these review counts, these group
/// scores and `levels_len` level slots, with `averages`, runs through.
pub open spec fn reconcile_inputs_defined(org: Org, n: nat, reviews: Seq<u16>, scores: Seq<u32>, levels_len: nat, averages: Seq<u32>) -> bool {
    &&& averaging_defined(org, n, reviews, scores.len())
    &&& group_count_is(org.ranges@, org.weights.len() as nat, n, averages.len())
    &&& potential_defined(stored_averages(scores, averages), levels_len, org)
}

/// The levels that `scores` earn, one per slot of `levels_len` (zero past the scores).
pub fn potential_levels(scores: &Vec<u32>, levels_len: usize, org: &Org) -> (levels: Vec<u8>)
    requires
        potential_defined(scores@, levels_len as nat, *org),
    ensures
        levels@ == earned_levels(scores@, levels_len as nat, *org),
        forall|g: int| 0 <= g < scores.len() ==> earns_level(org.levels@[g]@, scores@[g], #[trigger] levels@[g] as int),
{
    let mut levels: Vec<u8> = Vec::new();
    let mut i: usize = 0;
    while i < levels_len
        invariant
            i <= levels_len,
            levels.len() == i,
            forall|j: int| 0 <= j < i ==> #[trigger] levels@[j] == 0u8,
        decreases levels_len - i,
    {
        levels.push(0u8);
        i = i + 1;
    }
    let mut g: usize = 0;
    while g < scores.len()
        invariant
            g <= scores.len(),
            levels.len() == levels_len,
            potential_defined(scores@, levels_len as nat, *org),
            forall|j: int| 0 <= j < g ==> earns_level(org.levels@[j]@, scores@[j], #[trigger] levels@[j] as int),
            forall|j: int| g <= j < levels_len ==> #[trigger] levels@[j] == 0u8,
        decreases scores.len() - g,
    {
        assert(potential_slot_ok(scores@, levels_len as nat, *org, g as int));
        let level = crate::levels::earned_level(&org.levels[g], scores[g]);
        levels.set(g, level);
        g = g + 1;
    }
    proof {
        assert forall|j: int| 0 <= j < levels_len implies #[trigger] levels@[j] == earned_levels(scores@, levels_len as nat, *org)[j] by {
            if j < scores.len() {
                let t = org.levels@[j]@;
                let k = earned(t, scores@[j]);
                assert(earns_level(t, scores@[j], levels@[j] as int));
                assert(earns_level(t, scores@[j], k));
                crate::levels::lemma_earned_level_unique(t, scores@[j], k, levels@[j] as int);
            }
        }
    }
    assert(levels@ =~= earned_levels(scores@, levels_len as nat, *org));
    levels
}

/// Whether every group score has thresholds and a level slot, with a level that fits a byte.
pub fn potential_fits(scores: &Vec<u32>, levels_len: usize, org: &Org) -> (ok: bool)
    ensures
        ok == potential_defined(scores@, levels_len as nat, *org),
{
    let mut g: usize = 0;
    while g < scores.len()
        invariant
            g <= scores.len(),
            forall|j: int| 0 <= j < g ==> #[trigger] potential_slot_ok(scores@, levels_len as nat, *org, j),
        decreases scores.len() - g,
    {
        if g >= org.levels.len() || g >= levels_len {
            assert(!potential_slot_ok(scores@, levels_len as nat, *org, g as int));
            return false;
        }
        if !crate::levels::level_fits(&org.levels[g], scores[g]) {
            assert(!potential_slot_ok(scores@, levels_len as nat, *org, g as int));
            return false;
        }
        g = g + 1;
    }
    true
}

/// `scores` with `averages` stored in the leading slots.
pub fn with_averages(scores: &Vec<u32>, averages: &Vec<u32>) -> (stored: Vec<u32>)
    ensures
        stored@ == stored_averages(scores@, averages@),
        stored.len() == scores.len(),
        forall|g: int| 0 <= g < averages.len() && g < scores.len() ==> #[trigger] stored@[g] == averages@[g],
        forall|g: int| averages.len() <= g < scores.len() ==> #[trigger] stored@[g] == scores@[g],
{
    let mut stored: Vec<u32> = Vec::new();
    let mut i: usize = 0;
    while i < scores.len()
        invariant
            i <= scores.len(),
            stored.len() == i,
            forall|j: int| 0 <= j < i ==> #[trigger] stored@[j] == stored_averages(scores@, averages@)[j],
        decreases scores.len() - i,
    {
        if i < averages.len() {
            stored.push(averages[i]);
        } else {
            stored.push(scores[i]);
        }
        i = i + 1;
    }
    assert(stored@ =~= stored_averages(scores@, averages@));
    stored
}

/// Whether averaging `n` dimensions runs through (see `averaging_defined`).
pub fn averaging_ok(org: &Org, n: usize, reviews: &Vec<u16>, scores_len: usize) -> (ok: bool)
    ensures
        ok == averaging_defined(*org, n as nat, reviews@, scores_len as nat),
{
    let groups = match plan_groups(org, n) {
        Some(g) => g,
        None => return false,
    };
    if n > 0 && n > reviews.len() {
        return false;
    }
    let mut p: usize = 0;
    while p < n
        invariant
            p <= n,
            n > 0 ==> n <= reviews.len(),
            forall|q: int| 0 <= q < p && q < reviews.len() && #[trigger] reviews@[q] != 0 ==> q < org.weights.len(),
        decreases n - p,
    {
        if reviews[p] != 0 && p >= org.weights.len() {
            return false;
        }
        p = p + 1;
    }
    let ghost ranges = org.ranges@;
    let ghost nw = org.weights.len() as nat;
    proof {
        assert forall|r: nat| #[trigger] group_end(ranges, nw, r) < n implies r < groups.len() by {
            crate::grouping::lemma_group_count(ranges, nw, n as nat, groups.len() as nat, r);
        }
    }
    if groups.len() > scores_len {
        proof {
            let r = (groups.len() - 1) as nat;
            crate::grouping::lemma_group_count(ranges, nw, n as nat, groups.len() as nat, r);
        }
        return false;
    }
    true
}

/// Whether reconciling runs through (see `reconcile_inputs_defined`).
pub fn reconcile_inputs_ok(org: &Org, n: usize, reviews: &Vec<u16>, scores: &Vec<u32>, levels_len: usize, averages: &Vec<u32>) -> (ok: bool)
    ensures
        ok == reconcile_inputs_defined(*org, n as nat, reviews@, scores@, levels_len as nat, averages@),
{
    if !averaging_ok(org, n, reviews, scores.len()) {
        return false;
    }
    let groups = crate::grouping::score_groups(org, n);
    if groups.len() != averages.len() {
        proof {
            let ranges = org.ranges@;
            let nw = org.weights.len() as nat;
            if group_count_is(ranges, nw, n as nat, averages.len() as nat) {
                if groups.len() < averages.len() {
                    crate::grouping::lemma_group_count(ranges, nw, n as nat, averages.len() as nat, groups.len() as nat);
                } else {
                    crate::grouping::lemma_group_count(ranges, nw, n as nat, groups.len() as nat, averages.len() as nat);
                }
            }
        }
        return false;
    }
    let stored = with_averages(scores, averages);
    potential_fits(&stored, levels_len, org)
}

/// Counting one review against these counts never reaches a missing dimension
/// or overflows a count.
pub open spec fn tally_defined_for(counts: Seq<u16>, review: Seq<u32>) -> bool {
    forall|p: int| 0 <= p < review.len() && !is_zero(#[trigger] review[p]) ==> {
        &&& p < counts.len()
        &&& counts[p] < u16::MAX
    }
}

/// The review counts after one review (see `tallied`).
pub fn tally_counts(counts: &Vec<u16>, review: &Vec<u32>) -> (tallied_counts: Vec<u16>)
    requires
        tally_defined_for(counts@, review@),
    ensures
        tallied_counts@ == tallied(counts@, review@),
{
    let mut out: Vec<u16> = Vec::new();
    let mut p: usize = 0;
    while p < counts.len()
        invariant
            p <= counts.len(),
            out.len() == p,
            tally_defined_for(counts@, review@),
            forall|q: int| 0 <= q < p ==> #[trigger] out@[q] == tallied(counts@, review@)[q],
        decreases counts.len() - p,
    {
        if p < review.len() && crate::ieee::is_nonzero(review[p]) {
            out.push(counts[p] + 1);
        } else {
            out.push(counts[p]);
        }
        p = p + 1;
    }
    assert(out@ =~= tallied(counts@, review@));
    out
}

/// The dimensions of `group` that enter its average: those with at least one
/// review, in order.
pub fn counted_dimensions(reviews: &Vec<u16>, group: &ScoreGroup) -> (dims: Vec<usize>)
    requires
        group.first <= group.last,
        group.last < reviews.len(),
    ensures
        forall|i: int| 0 <= i < dims.len() ==> group.first <= #[trigger] dims@[i] <= group.last && reviews@[dims@[i] as int] != 0,
        forall|i: int, j: int| 0 <= i < j < dims.len() ==> dims@[i] < dims@[j],
        forall|p: int| group.first <= p <= group.last && #[trigger] reviews@[p] != 0 ==> dims@.contains(p as usize),
{
    let mut dims: Vec<usize> = Vec::new();
    let mut p: usize = group.first;
    while p <= group.last
        invariant
            group.last < reviews.len(),
            group.first <= p <= group.last + 1,
            forall|i: int| 0 <= i < dims.len() ==> group.first <= #[trigger] dims@[i] < p && reviews@[dims@[i] as int] != 0,
            forall|i: int, j: int| 0 <= i < j < dims.len() ==> dims@[i] < dims@[j],
            forall|q: int| group.first <= q < p && #[trigger] reviews@[q] != 0 ==> dims@.contains(q as usize),
        decreases group.last + 1 - p,
    {
        if reviews[p] != 0 {
            let ghost before = dims@;
            dims.push(p);
            proof {
                assert forall|q: int| group.first <= q < p + 1 && #[trigger] reviews@[q] != 0 implies dims@.contains(q as usize) by {
                    if q < p {
                        let k = choose|k: int| 0 <= k < before.len() && before[k] == q as usize;
                        assert(dims@[k] == q as usize);
                    } else {
                        assert(dims@[before.len() as int] == p);
                    }
                }
            }
        }
        p = p + 1;
    }
    dims
}

/// Counting a review adds one to exactly the dimensions whose value is not
/// `+0.0` or `-0.0` (a NaN counts), and leaves every other count.
pub proof fn lemma_tallied_counts_nonzero(counts: Seq<u16>, review: Seq<u32>)
    requires
        tally_defined_for(counts, review),
    ensures
        tallied(counts, review).len() == counts.len(),
        forall|p: int| 0 <= p < counts.len() ==> #[trigger] tallied(counts, review)[p] as int == counts[p] as int + (
            if p < review.len() && review[p] % 0x8000_0000 != 0 { 1int } else { 0int }),
{
    assert forall|p: int| 0 <= p < counts.len() implies #[trigger] tallied(counts, review)[p] as int == counts[p] as int + (
        if p < review.len() && review[p] % 0x8000_0000 != 0 { 1int } else { 0int }) by {
        if p < review.len() && !is_zero(review[p]) {
            assert(counts[p] < u16::MAX);
        }
    }
}

/// Storing averages puts each group's average in the group's slot, whether it is
/// above or below the score there, and keeps every slot past the averages.
pub proof fn lemma_stored_averages_slots(scores: Seq<u32>, averages: Seq<u32>)
    ensures
        stored_averages(scores, averages).len() == scores.len(),
        forall|g: int| 0 <= g < averages.len() && g < scores.len() ==> #[trigger] stored_averages(scores, averages)[g] == averages[g],
        forall|g: int| averages.len() <= g < scores.len() ==> #[trigger] stored_averages(scores, averages)[g] == scores[g],
{
}

/// Storing averages is idempotent: a second `update_scores` with the same
/// averages leaves the scores as the first left them, so repeating an update of
/// the totals with the same arguments and overridden levels changes nothing.
pub proof fn lemma_stored_averages_idempotent(scores: Seq<u32>, averages: Seq<u32>)
    ensures
        stored_averages(stored_averages(scores, averages), averages) == stored_averages(scores, averages),
{
    assert(stored_averages(stored_averages(scores, averages), averages) =~= stored_averages(scores, averages));
}

/// Group scores that are each at least as high as others earn levels that are
/// each at least as high.
pub proof fn lemma_earned_levels_monotone(low: Seq<u32>, high: Seq<u32>, levels_len: nat, org: Org)
    requires
        low.len() == high.len(),
        potential_defined(low, levels_len, org),
        potential_defined(high, levels_len, org),
        forall|g: int| 0 <= g < low.len() ==> crate::ieee::value_le(#[trigger] low[g], high[g]),
    ensures
        forall|g: int| 0 <= g < levels_len ==> #[trigger] earned_levels(low, levels_len, org)[g] <= earned_levels(high, levels_len, org)[g],
{
    assert forall|g: int| 0 <= g < levels_len implies #[trigger] earned_levels(low, levels_len, org)[g] <= earned_levels(high, levels_len, org)[g] by {
        if g < low.len() {
            let t = org.levels@[g]@;
            assert(potential_slot_ok(low, levels_len, org, g));
            assert(potential_slot_ok(high, levels_len, org, g));
            crate::levels::lemma_earned_level_exists(t, low[g]);
            crate::levels::lemma_earned_level_exists(t, high[g]);
            let kl = earned(t, low[g]);
            let kh = earned(t, high[g]);
            crate::levels::lemma_earned_level_fits(t, low[g], kl);
            crate::levels::lemma_earned_level_fits(t, high[g], kh);
            crate::levels::lemma_earned_level_monotone(t, low[g], high[g], kl, kh);
        }
    }
}

impl Score {
    /// The record has the shape that registration gives it under `org`: one
    /// score and one level per group, one sum and one review count per weight.
    pub open spec fn well_shaped(self, org: Org) -> bool {
        &&& self.scores.len() == org.ranges.len() + 1
        &&& self.levels.len() == org.levels.len()
        &&& self.scores_sum.len() == org.weights.len()
        &&& self.reviews_recieved.len() == org.weights.len()
    }

    /// Counting one review never reaches a missing dimension or overflows a count.
    pub open spec fn tally_defined(self, review: Seq<u32>) -> bool {
        tally_defined_for(self.reviews_recieved@, review)
    }

    /// Averaging the groups reaches only dimensions, weights and slots that exist.
    pub open spec fn update_scores_defined(self, org: Org) -> bool {
        averaging_defined(org, self.scores_sum.len() as nat, self.reviews_recieved@, self.scores.len() as nat)
    }

    /// `averages` holds one value per group that closes among the dimensions.
    pub open spec fn averages_fit(self, org: Org, averages: Seq<u32>) -> bool {
        group_count_is(org.ranges@, org.weights.len() as nat, self.scores_sum.len() as nat, averages.len())
    }

    /// Reconciling with `averages` runs through without a failure.
    pub open spec fn reconcile_defined(self, org: Org, averages: Seq<u32>) -> bool {
        reconcile_inputs_defined(org, self.scores_sum.len() as nat, self.reviews_recieved@, self.scores@, self.levels.len() as nat, averages)
    }

    /// A fresh record with nothing in it but its bump.
    pub fn new(bump: u8) -> (score: Score)
        ensures
            score.name@ == Seq::<char>::empty(),
            score.scores@ == Seq::<u32>::empty(),
            score.scores_sum@ == Seq::<u32>::empty(),
            score.reviews_recieved@ == Seq::<u16>::empty(),
            score.reviews_sent == 0,
            score.applicant@ == Seq::new(32, |_i: int| 0u8),
            score.mint@ == Seq::new(32, |_i: int| 0u8),
            score.levels@ == Seq::<u8>::empty(),
            score.last_update == 0,
            score.bump == bump,
    {
        Score {
            name: String::new(),
            scores: Vec::new(),
            scores_sum: Vec::new(),
            reviews_recieved: Vec::new(),
            reviews_sent: 0,
            applicant: [0u8; 32],
            mint: [0u8; 32],
            levels: Vec::new(),
            last_update: 0,
            bump,
        }
    }

    /// Counts one review: each dimension whose value is not zero gets one more review.
    pub fn tally_reviews(&mut self, review: &Vec<u32>)
        requires
            old(self).tally_defined(review@),
        ensures
            final(self).reviews_recieved@ == tallied(old(self).reviews_recieved@, review@),
            final(self).scores@ == old(self).scores@,
            final(self).scores_sum@ == old(self).scores_sum@,
            final(self).levels@ == old(self).levels@,
            final(self).name@ == old(self).name@,
            final(self).applicant == old(self).applicant,
            final(self).mint == old(self).mint,
            final(self).reviews_sent == old(self).reviews_sent,
            final(self).last_update == old(self).last_update,
            final(self).bump == old(self).bump,
    {
        let ghost before = self.reviews_recieved@;
        let mut p: usize = 0;
        while p < review.len()
            invariant
                p <= review.len(),
                old(self).tally_defined(review@),
                before == old(self).reviews_recieved@,
                self.reviews_recieved.len() == before.len(),
                forall|q: int| 0 <= q < p && q < before.len() ==> #[trigger] self.reviews_recieved@[q] == tallied(before, review@)[q],
                forall|q: int| p <= q < before.len() ==> #[trigger] self.reviews_recieved@[q] == before[q],
                self.scores@ == old(self).scores@,
                self.scores_sum@ == old(self).scores_sum@,
                self.levels@ == old(self).levels@,
                self.name@ == old(self).name@,
                self.applicant == old(self).applicant,
                self.mint == old(self).mint,
                self.reviews_sent == old(self).reviews_sent,
                self.last_update == old(self).last_update,
                self.bump == old(self).bump,
            decreases review.len() - p,
        {
            if crate::ieee::is_nonzero(review[p]) {
                let count = self.reviews_recieved[p];
                self.reviews_recieved.set(p, count + 1);
            }
            p = p + 1;
        }
        assert(self.reviews_recieved@ =~= tallied(before, review@));
    }

    /// Whether one review can be counted (see `tally_defined`).
    pub fn can_tally_reviews(&self, review: &Vec<u32>) -> (ok: bool)
        ensures
            ok == self.tally_defined(review@),
    {
        let mut p: usize = 0;
        while p < review.len()
            invariant
                p <= review.len(),
                forall|q: int| 0 <= q < p && !is_zero(#[trigger] review@[q]) ==> q < self.reviews_recieved.len() && self.reviews_recieved@[q] < u16::MAX,
            decreases review.len() - p,
        {
            if crate::ieee::is_nonzero(review[p]) {
                if p >= self.reviews_recieved.len() || self.reviews_recieved[p] == u16::MAX {
                    return false;
                }
            }
            p = p + 1;
        }
        true
    }

    /// The groups that the dimensions of this record close, in order.
    pub fn score_groups(&self, org: &Org) -> (groups: Vec<ScoreGroup>)
        requires
            self.update_scores_defined(*org),
        ensures
            is_grouping(org.ranges@, org.weights.len() as nat, self.scores_sum.len() as nat, groups@),
    {
        crate::grouping::score_groups(org, self.scores_sum.len())
    }

    /// Whether the group averages can be computed and stored (see `update_scores_defined`).
    pub fn can_update_scores(&self, org: &Org) -> (ok: bool)
        ensures
            ok == self.update_scores_defined(*org),
    {
        averaging_ok(org, self.scores_sum.len(), &self.reviews_recieved, self.scores.len())
    }

    /// Stores each closed group's average in the group's slot, in order: the
    /// first average in slot 0, the next in slot 1, and so on.
    pub fn update_scores(&mut self, org: &Org, averages: &Vec<u32>)
        requires
            old(self).update_scores_defined(*org),
            old(self).averages_fit(*org, averages@),
        ensures
            final(self).scores@ == stored_averages(old(self).scores@, averages@),
            averages.len() <= old(self).scores.len(),
            final(self).scores.len() == old(self).scores.len(),
            forall|g: int| 0 <= g < averages.len() ==> #[trigger] final(self).scores@[g] == averages@[g],
            forall|g: int| averages.len() <= g < old(self).scores.len() ==> #[trigger] final(self).scores@[g] == old(self).scores@[g],
            final(self).scores_sum@ == old(self).scores_sum@,
            final(self).reviews_recieved@ == old(self).reviews_recieved@,
            final(self).levels@ == old(self).levels@,
            final(self).name@ == old(self).name@,
            final(self).applicant == old(self).applicant,
            final(self).mint == old(self).mint,
            final(self).reviews_sent == old(self).reviews_sent,
            final(self).last_update == old(self).last_update,
            final(self).bump == old(self).bump,
    {
        let ghost ranges = org.ranges@;
        let ghost nw = org.weights.len() as nat;
        let ghost before = self.scores@;
        proof {
            if averages.len() > 0 {
                crate::grouping::lemma_group_count(ranges, nw, self.scores_sum.len() as nat, averages.len() as nat, (averages.len() - 1) as nat);
            }
        }
        let mut g: usize = 0;
        while g < averages.len()
            invariant
                g <= averages.len(),
                averages.len() <= before.len(),
                self.scores.len() == before.len(),
                forall|i: int| 0 <= i < g ==> #[trigger] self.scores@[i] == averages@[i],
                forall|i: int| g <= i < before.len() ==> #[trigger] self.scores@[i] == before[i],
                self.scores_sum@ == old(self).scores_sum@,
                self.reviews_recieved@ == old(self).reviews_recieved@,
                self.levels@ == old(self).levels@,
                self.name@ == old(self).name@,
                self.applicant == old(self).applicant,
                self.mint == old(self).mint,
                self.reviews_sent == old(self).reviews_sent,
                self.last_update == old(self).last_update,
                self.bump == old(self).bump,
            decreases averages.len() - g,
        {
            self.scores.set(g, averages[g]);
            g = g + 1;
        }
        assert(self.scores@ =~= stored_averages(before, averages@));
    }

    /// The level each group score earns against its group's thresholds; one
    /// entry per level slot, zero for slots past the scores.
    pub fn calculate_potential_level(&self, org: &Org) -> (levels: Vec<u8>)
        requires
            potential_defined(self.scores@, self.levels.len() as nat, *org),
        ensures
            levels@ == earned_levels(self.scores@, self.levels.len() as nat, *org),
            forall|g: int| 0 <= g < self.scores.len() ==> earns_level(org.levels@[g]@, self.scores@[g], #[trigger] levels@[g] as int),
    {
        potential_levels(&self.scores, self.levels.len(), org)
    }

    /// The levels after one step toward `potential_levels`: at the first group
    /// where they differ, the level moves up or down by one.
    pub fn calculate_next_level(&self, potential_levels: Vec<u8>) -> (levels: Vec<u8>)
        requires
            step_defined(self.levels@, potential_levels@),
        ensures
            levels@ == step_toward(self.levels@, potential_levels@),
    {
        crate::levels::next_level(&self.levels, &potential_levels)
    }

    /// Stores the group averages, then returns the levels one step toward the
    /// levels that the new scores earn.
    pub fn reconcile(&mut self, org: &Org, averages: &Vec<u32>) -> (next: Vec<u8>)
        requires
            old(self).reconcile_defined(*org, averages@),
        ensures
            final(self).scores@ == stored_averages(old(self).scores@, averages@),
            final(self).scores.len() == old(self).scores.len(),
            forall|g: int| 0 <= g < averages.len() ==> #[trigger] final(self).scores@[g] == averages@[g],
            next@ == step_toward(
                old(self).levels@,
                earned_levels(stored_averages(old(self).scores@, averages@), old(self).levels.len() as nat, *org),
            ),
            next@ == step_toward(final(self).levels@, earned_levels(final(self).scores@, final(self).levels.len() as nat, *org)),
            next.len() == old(self).levels.len(),
            old(self).well_shaped(*org) ==> final(self).well_shaped(*org),
            final(self).scores_sum@ == old(self).scores_sum@,
            final(self).reviews_recieved@ == old(self).reviews_recieved@,
            final(self).levels@ == old(self).levels@,
            final(self).name@ == old(self).name@,
            final(self).applicant == old(self).applicant,
            final(self).mint == old(self).mint,
            final(self).reviews_sent == old(self).reviews_sent,
            final(self).last_update == old(self).last_update,
            final(self).bump == old(self).bump,
    {
        self.update_scores(org, averages);
        let potential = self.calculate_potential_level(org);
        let next = self.calculate_next_level(potential);
        proof {
            crate::levels::lemma_step_len(old(self).levels@, earned_levels(self.scores@, self.levels.len() as nat, *org));
        }
        next
    }

    /// Whether reconciling with `averages` runs through (see `reconcile_defined`).
    pub fn can_reconcile(&self, org: &Org, averages: &Vec<u32>) -> (ok: bool)
        ensures
            ok == self.reconcile_defined(*org, averages@),
    {
        reconcile_inputs_ok(org, self.scores_sum.len(), &self.reviews_recieved, &self.scores, self.levels.len(), averages)
    }
}

} // verus!
