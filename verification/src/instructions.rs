//! What each instruction of the program decides and changes.
//!
//! Every function here takes the accounts it reads as plain values and returns
//! or updates them; the caller reads and writes the accounts and performs the
//! token-program calls that the returned metadata describes.
use vstd::prelude::*;
use crate::org::Org;
use crate::score::{Score, stored_averages, earned_levels, reconcile_inputs_defined, tallied, tally_defined_for};
use crate::metadata::{MetadataCreation, MetadataUpdate, is_org_metadata, is_score_metadata, is_score_update};
use crate::levels::step_toward;

verus! {

/// Number of thresholds over all groups.
pub open spec fn total_thresholds(levels: Seq<Vec<u32>>) -> nat
    decreases levels.len(),
{
    if levels.len() == 0 {
        0
    } else {
        total_thresholds(levels.drop_last()) + levels.last().len() as nat
    }
}

/// Bytes added to a new organization account: four per threshold, one per group, and 100.
pub open spec fn org_space(levels: Seq<Vec<u32>>) -> int {
    (total_thresholds(levels) * 4 + levels.len() + 50 + 50) as int
}

/// Bytes of the UTF-8 encoding of a string.
pub open spec fn byte_len(s: Seq<char>) -> nat {
    vstd::utf8::encode_utf8(s).len()
}

/// Bytes added to a new score account: four per group score, four per review
/// sum, one per level, four per name byte, two per review count.
pub open spec fn score_space(org: Org, name: Seq<char>) -> int {
    4 * (org.ranges.len() + 1) + 4 * org.weights.len() + org.levels.len() + byte_len(name) * 4 + 2 * org.weights.len()
}

/// The time a review counts at: the override when it is not zero, else the clock.
pub open spec fn submission_time(clock_ts: i64, timestamp_override: i64) -> i64 {
    if timestamp_override != 0 { timestamp_override } else { clock_ts }
}

/// Some dimension has at least `min_reviews` reviews (the largest count reaches it).
pub open spec fn reviews_reach(reviews: Seq<u16>, min_reviews: u8) -> bool {
    exists|p: int| 0 <= p < reviews.len() && #[trigger] reviews[p] >= min_reviews
}

/// `n` zeros.
pub open spec fn zeros<T>(n: nat, zero: T) -> Seq<T> {
    Seq::new(n, |_i: int| zero)
}

/// A new organization; the creation of its NFT's metadata, the tokens to mint,
/// the maximum supply of its master edition; and the bytes to add to its account.
pub struct OrgCreation {
    pub org: Org,
    pub metadata: MetadataCreation,
    pub mint_amount: u64,
    pub max_supply: Option<u64>,
    pub space_to_add: usize,
}

/// A new score record; the creation of its NFT's metadata and the tokens to
/// mint; and the bytes to add to its account.
pub struct Registration {
    pub score: Score,
    pub metadata: MetadataCreation,
    pub mint_amount: u64,
    pub space_to_add: usize,
}

/// Creates an organization with the given scoring configuration.
///
/// One NFT is minted, named `{name} Organization`, symbol `GRWTH`, at
/// `{domain}/org.json`, mutable, starting a sized collection of size 0, with a
/// master edition of maximum supply 0; the account grows by four bytes per
/// threshold, one per group, and 100.
pub fn create_organization(
    authority: [u8; 32],
    org_mint: [u8; 32],
    org_bump: u8,
    weights: Vec<u32>,
    ranges: Vec<u8>,
    levels: Vec<Vec<u32>>,
    name: String,
    min_reviews: u8,
    domain: String,
    level_wait: i32,
) -> (created: OrgCreation)
    requires
        ranges.len() + 1 == levels.len(),
        org_space(levels@) <= usize::MAX,
    ensures
        created.org.weights@ == weights@,
        created.org.ranges@ == ranges@,
        created.org.levels@ == levels@,
        created.org.mint == org_mint,
        created.org.authority == authority,
        created.org.name@ == name@,
        created.org.min_reviews == min_reviews,
        created.org.domain@ == domain@,
        created.org.bump == org_bump,
        created.org.level_wait == level_wait,
        is_org_metadata(created.metadata.data, name@, domain@),
        created.metadata.is_mutable,
        created.metadata.update_authority_is_signer,
        created.metadata.collection_size == Some(0u64),
        created.mint_amount == 1,
        created.max_supply == Some(0u64),
        created.space_to_add == org_space(levels@),
        created.org.well_formed(),
{
    let mut total: usize = 0;
    let mut g: usize = 0;
    while g < levels.len()
        invariant
            g <= levels.len(),
            total == total_thresholds(levels@.subrange(0, g as int)),
            org_space(levels@) <= usize::MAX,
        decreases levels.len() - g,
    {
        proof {
            lemma_total_thresholds_prefix(levels@, (g + 1) as int);
            lemma_total_thresholds_prefix(levels@, levels.len() as int);
            assert(levels@.subrange(0, levels.len() as int) =~= levels@);
            assert(levels@.subrange(0, g + 1).drop_last() =~= levels@.subrange(0, g as int));
        }
        total = total + levels[g].len();
        g = g + 1;
    }
    assert(levels@.subrange(0, levels.len() as int) =~= levels@);
    let space_to_add = total * 4 + levels.len() + 50 + 50;
    let metadata = MetadataCreation {
        data: crate::metadata::org_metadata(&name, &domain),
        is_mutable: true,
        update_authority_is_signer: true,
        collection_size: Some(0),
    };
    let org = Org {
        name,
        min_reviews,
        weights,
        ranges,
        levels,
        mint: org_mint,
        authority,
        domain,
        bump: org_bump,
        level_wait,
    };
    OrgCreation { org, metadata, mint_amount: 1, max_supply: Some(0), space_to_add }
}

/// Whether the bytes to add to a new organization account fit a `usize`.
pub fn org_space_fits(levels: &Vec<Vec<u32>>) -> (fits: bool)
    ensures
        fits == (org_space(levels@) <= usize::MAX),
{
    let mut total: u128 = 0;
    let mut g: usize = 0;
    while g < levels.len()
        invariant
            g <= levels.len(),
            total == total_thresholds(levels@.subrange(0, g as int)),
            total <= g * (usize::MAX as int),
        decreases levels.len() - g,
    {
        assert(levels@.subrange(0, g + 1).drop_last() =~= levels@.subrange(0, g as int));
        proof {
            assert(total + levels@[g as int].len() <= (g + 1) * (usize::MAX as int)) by (nonlinear_arith)
                requires
                    total <= g * (usize::MAX as int),
                    levels@[g as int].len() <= usize::MAX;
            assert(g < usize::MAX);
            assert((g + 1) * (usize::MAX as int) <= (usize::MAX as int) * (usize::MAX as int)) by (nonlinear_arith)
                requires
                    g + 1 <= usize::MAX;
            assert((usize::MAX as int) * (usize::MAX as int) < u128::MAX) by (nonlinear_arith)
                requires
                    usize::MAX <= u64::MAX;
        }
        total = total + levels[g].len() as u128;
        g = g + 1;
    }
    assert(levels@.subrange(0, levels.len() as int) =~= levels@);
    if total > (usize::MAX as u128) {
        return false;
    }
    total * 4 + (levels.len() as u128) + 100 <= usize::MAX as u128
}

/// Whether the bytes to add to a new score account fit a `usize`.
pub fn score_space_fits(org: &Org, name: &String) -> (fits: bool)
    ensures
        fits == (score_space(*org, name@) <= usize::MAX),
{
    let name_bytes = name.as_str().as_bytes().len() as u128;
    let space = 4 * (org.ranges.len() as u128 + 1) + 4 * (org.weights.len() as u128) + (org.levels.len() as u128)
        + name_bytes * 4 + 2 * (org.weights.len() as u128);
    space <= usize::MAX as u128
}

/// The thresholds of a prefix are no more than those of the whole.
proof fn lemma_total_thresholds_prefix(levels: Seq<Vec<u32>>, k: int)
    requires
        0 <= k <= levels.len(),
    ensures
        total_thresholds(levels.subrange(0, k)) <= total_thresholds(levels),
    decreases levels.len(),
{
    if k < levels.len() {
        lemma_total_thresholds_prefix(levels.drop_last(), k);
        assert(levels.drop_last().subrange(0, k) =~= levels.subrange(0, k));
    } else {
        assert(levels.subrange(0, k) =~= levels);
    }
}

/// Registers `applicant` with the organization: a fresh score record with one
/// zero score per group, one zero sum and zero review count per weight, the
/// given levels, name and last update.
///
/// One NFT is minted, named `{org name} - {name}`, symbol `SCORE`, at the URI
/// of the levels, mutable, in the organization's collection, not yet verified.
pub fn register(
    org: &Org,
    authority: [u8; 32],
    applicant: [u8; 32],
    register_mint: [u8; 32],
    score_bump: u8,
    name: String,
    levels: Vec<u8>,
    last_update: i64,
) -> (registered: Registration)
    requires
        authority == org.authority,
        levels.len() == org.levels.len(),
        score_space(*org, name@) <= usize::MAX,
    ensures
        registered.score.scores@ == zeros((org.ranges.len() + 1) as nat, 0u32),
        registered.score.scores_sum@ == zeros(org.weights.len() as nat, 0u32),
        registered.score.reviews_recieved@ == zeros(org.weights.len() as nat, 0u16),
        registered.score.levels@ == levels@,
        registered.score.name@ == name@,
        registered.score.last_update == last_update,
        registered.score.applicant == applicant,
        registered.score.mint == register_mint,
        registered.score.reviews_sent == 0,
        registered.score.bump == score_bump,
        is_score_metadata(registered.metadata.data, org.name@ + " - "@ + name@, org.domain@, levels@, org.mint, false),
        registered.metadata.is_mutable,
        registered.metadata.update_authority_is_signer,
        registered.metadata.collection_size is None,
        registered.mint_amount == 1,
        registered.space_to_add == score_space(*org, name@),
        registered.score.well_shaped(*org),
{
    let name_bytes = name.as_str().as_bytes().len();
    let space_to_add = 4 * (org.ranges.len() + 1) + (4 * org.weights.len()) + org.levels.len() + (name_bytes * 4) + (2 * org.weights.len());
    let mut score = Score::new(score_bump);
    score.scores = zero_words(org.ranges.len() + 1);
    score.levels = levels;
    score.reviews_recieved = zero_counts(org.weights.len());
    score.name = name.clone();
    score.last_update = last_update;
    score.applicant = applicant;
    score.mint = register_mint;
    score.scores_sum = zero_words(org.weights.len());
    let mut metadata_name = org.name.clone();
    metadata_name.append(" - ");
    metadata_name.append(name.as_str());
    let metadata = MetadataCreation {
        data: crate::metadata::score_metadata(metadata_name, &org.domain, &score.levels, org.mint, false),
        is_mutable: true,
        update_authority_is_signer: true,
        collection_size: None,
    };
    Registration { score, metadata, mint_amount: 1, space_to_add }
}

/// `n` zero words (the bit pattern of `+0.0`).
fn zero_words(n: usize) -> (v: Vec<u32>)
    ensures
        v@ == zeros(n as nat, 0u32),
{
    let mut v: Vec<u32> = Vec::new();
    while v.len() < n
        invariant
            v.len() <= n,
            forall|i: int| 0 <= i < v.len() ==> #[trigger] v@[i] == 0u32,
        decreases n - v.len(),
    {
        v.push(crate::ieee::ZERO);
    }
    assert(v@ =~= zeros(n as nat, 0u32));
    v
}

/// `n` zero counts.
fn zero_counts(n: usize) -> (v: Vec<u16>)
    ensures
        v@ == zeros(n as nat, 0u16),
{
    let mut v: Vec<u16> = Vec::new();
    while v.len() < n
        invariant
            v.len() <= n,
            forall|i: int| 0 <= i < v.len() ==> #[trigger] v@[i] == 0u16,
        decreases n - v.len(),
    {
        v.push(0);
    }
    assert(v@ =~= zeros(n as nat, 0u16));
    v
}

/// Whether two level lists are equal.
fn same_levels(a: &Vec<u8>, b: &Vec<u8>) -> (same: bool)
    ensures
        same == (a@ == b@),
{
    if a.len() != b.len() {
        return false;
    }
    let mut i: usize = 0;
    while i < a.len()
        invariant
            i <= a.len(),
            a.len() == b.len(),
            forall|j: int| 0 <= j < i ==> a@[j] == b@[j],
        decreases a.len() - i,
    {
        if a[i] != b[i] {
            return false;
        }
        i = i + 1;
    }
    assert(a@ =~= b@);
    true
}

/// Whether some review count reaches `min_reviews`.
fn any_reaches(reviews: &Vec<u16>, min_reviews: u8) -> (reached: bool)
    ensures
        reached == reviews_reach(reviews@, min_reviews),
{
    let mut i: usize = 0;
    while i < reviews.len()
        invariant
            i <= reviews.len(),
            forall|j: int| 0 <= j < i ==> #[trigger] reviews@[j] < min_reviews,
        decreases reviews.len() - i,
    {
        if reviews[i] >= min_reviews as u16 {
            return true;
        }
        i = i + 1;
    }
    false
}

/// The levels may move to `next_level`: the record's NFT is verified in the
/// collection, the levels differ from `next_level`, the cooldown since the last
/// update has passed strictly before the submission time, and some dimension
/// has at least the organization's minimum number of reviews.
pub open spec fn level_change_allowed(levels: Seq<u8>, last_update: i64, reviews: Seq<u16>, org: Org, next_level: Seq<u8>, collection_verified: bool, submission: i64) -> bool {
    &&& collection_verified
    &&& levels != next_level
    &&& last_update + org.level_wait < submission
    &&& reviews_reach(reviews, org.min_reviews)
}

/// Deciding on the levels never adds past `i64` nor takes the largest of no review counts.
pub open spec fn level_decision_defined(levels: Seq<u8>, last_update: i64, reviews: Seq<u16>, org: Org, next_level: Seq<u8>, collection_verified: bool, submission: i64) -> bool {
    collection_verified && levels != next_level ==> {
        &&& i64::MIN <= last_update + org.level_wait <= i64::MAX
        &&& last_update + org.level_wait < submission ==> reviews.len() > 0
    }
}

/// The levels and last update after a review, given the levels it reconciles
/// to: unchanged when the NFT is not verified; the last update set to the clock
/// when the levels are already there; the new levels at the submission time
/// when `level_change_allowed`; unchanged otherwise.
pub open spec fn level_outcome(levels: Seq<u8>, last_update: i64, reviews: Seq<u16>, org: Org, next_level: Seq<u8>, collection_verified: bool, clock_ts: i64, timestamp_override: i64) -> (Seq<u8>, i64) {
    let submission = submission_time(clock_ts, timestamp_override);
    if !collection_verified {
        (levels, last_update)
    } else if levels == next_level {
        (levels, clock_ts)
    } else if level_change_allowed(levels, last_update, reviews, org, next_level, collection_verified, submission) {
        (next_level, submission)
    } else {
        (levels, last_update)
    }
}

/// The levels a record reconciles to with `averages`: one step toward the
/// levels that its scores earn once the averages are stored.
pub open spec fn reconciled_levels(score: Score, org: Org, averages: Seq<u32>) -> Seq<u8> {
    step_toward(score.levels@, earned_levels(stored_averages(score.scores@, averages), score.levels.len() as nat, org))
}

/// A review, with the sums it leads to and the group averages of the record
/// once it is counted, runs through without a failure.
pub open spec fn receive_defined(score: Score, org: Org, review: Seq<u32>, new_sums: Seq<u32>, averages: Seq<u32>, collection_verified: bool, clock_ts: i64, timestamp_override: i64) -> bool {
    let counts = tallied(score.reviews_recieved@, review);
    &&& review.len() == org.weights.len()
    &&& review.len() <= score.scores_sum.len()
    &&& tally_defined_for(score.reviews_recieved@, review)
    &&& new_sums.len() == score.scores_sum.len()
    &&& reconcile_inputs_defined(org, new_sums.len() as nat, counts, score.scores@, score.levels.len() as nat, averages)
    &&& level_decision_defined(score.levels@, score.last_update, counts, org, reconciled_levels(score, org, averages), collection_verified, submission_time(clock_ts, timestamp_override))
}

/// Receives one review: counts it (each dimension whose value is not zero gets
/// one more review), takes the sums with the review added (`new_sums`), stores
/// the group averages of the updated record (`averages`), reconciles the levels
/// one step toward what those scores earn, and decides on the move by
/// `level_outcome`.  When the levels move, the NFT metadata is to be rewritten:
/// its current name, symbol `SCORE`, the URI of the new levels, verified in the
/// organization's collection.
pub fn receive_score(
    score: &mut Score,
    org: &Org,
    authority: [u8; 32],
    review: &Vec<u32>,
    new_sums: Vec<u32>,
    averages: &Vec<u32>,
    metadata_name: String,
    collection_verified: bool,
    clock_ts: i64,
    timestamp_override: i64,
) -> (update: Option<MetadataUpdate>)
    requires
        authority == org.authority,
        receive_defined(*old(score), *org, review@, new_sums@, averages@, collection_verified, clock_ts, timestamp_override),
    ensures
        ({
            let counts = tallied(old(score).reviews_recieved@, review@);
            let next = reconciled_levels(*old(score), *org, averages@);
            let submission = submission_time(clock_ts, timestamp_override);
            &&& final(score).reviews_recieved@ == counts
            &&& final(score).scores_sum@ == new_sums@
            &&& final(score).scores@ == stored_averages(old(score).scores@, averages@)
            &&& (final(score).levels@, final(score).last_update) == level_outcome(
                old(score).levels@, old(score).last_update, counts, *org, next, collection_verified, clock_ts, timestamp_override)
            &&& (update is Some <==> level_change_allowed(old(score).levels@, old(score).last_update, counts, *org, next, collection_verified, submission))
            &&& (update is Some ==> is_score_update(update.unwrap(), metadata_name@, org.domain@, next, org.mint))
            &&& (final(score).levels@ == old(score).levels@ || final(score).levels@ == next)
        }),
        ({
            let counts = tallied(old(score).reviews_recieved@, review@);
            let next = reconciled_levels(*old(score), *org, averages@);
            let submission = if timestamp_override != 0 { timestamp_override } else { clock_ts };
            let may_move = old(score).last_update + org.level_wait < submission
                && exists|p: int| 0 <= p < counts.len() && counts[p] >= org.min_reviews;
            &&& collection_verified && old(score).levels@ != next && may_move ==>
                final(score).levels@ == next && final(score).last_update == submission && update is Some
            &&& collection_verified && old(score).levels@ != next && !may_move ==>
                final(score).levels@ == old(score).levels@ && final(score).last_update == old(score).last_update && update is None
            &&& collection_verified && old(score).levels@ == next ==>
                final(score).levels@ == old(score).levels@ && final(score).last_update == clock_ts && update is None
            &&& !collection_verified ==>
                final(score).levels@ == old(score).levels@ && final(score).last_update == old(score).last_update && update is None
        }),
        final(score).scores.len() == old(score).scores.len(),
        forall|g: int| 0 <= g < averages.len() ==> #[trigger] final(score).scores@[g] == averages@[g],
        final(score).levels.len() == old(score).levels.len(),
        final(score).name@ == old(score).name@,
        final(score).applicant == old(score).applicant,
        final(score).mint == old(score).mint,
        final(score).reviews_sent == old(score).reviews_sent,
        final(score).bump == old(score).bump,
        old(score).well_shaped(*org) ==> final(score).well_shaped(*org),
{
    score.tally_reviews(review);
    score.scores_sum = new_sums;
    let next_level = score.reconcile(org, averages);
    let submission_ts = if timestamp_override != 0 { timestamp_override } else { clock_ts };
    if !collection_verified {
        return None;
    }
    if same_levels(&score.levels, &next_level) {
        score.last_update = clock_ts;
        None
    } else if (score.last_update + (org.level_wait as i64)) < submission_ts && any_reaches(
        &score.reviews_recieved,
        org.min_reviews,
    ) {
        score.levels = next_level;
        score.last_update = submission_ts;
        Some(crate::metadata::score_update(metadata_name, &org.domain, &score.levels, org.mint))
    } else {
        None
    }
}

/// Counts one review request sent by the contributor.
pub fn send_score(score: &mut Score, org: &Org, authority: [u8; 32])
    requires
        authority == org.authority,
        old(score).reviews_sent < u16::MAX,
    ensures
        final(score).reviews_sent == old(score).reviews_sent + 1,
        final(score).scores@ == old(score).scores@,
        final(score).scores_sum@ == old(score).scores_sum@,
        final(score).reviews_recieved@ == old(score).reviews_recieved@,
        final(score).levels@ == old(score).levels@,
        final(score).name@ == old(score).name@,
        final(score).applicant == old(score).applicant,
        final(score).mint == old(score).mint,
        final(score).last_update == old(score).last_update,
        final(score).bump == old(score).bump,
        old(score).well_shaped(*org) ==> final(score).well_shaped(*org),
{
    score.reviews_sent = score.reviews_sent + 1;
}

/// Overrides the totals of a record and reconciles it: the review sums and
/// counts become the given ones, the group scores take `averages`, the levels
/// move one step toward the levels those scores earn (or become `levels` when
/// `override_levels`), and the last update becomes `last_update`.  The NFT
/// metadata is always rewritten (its current name, symbol `SCORE`, the URI of
/// the resulting levels, verified in the organization's collection, with the
/// update authority kept and the primary-sale and mutable flags set).
pub fn update_scores(
    score: &mut Score,
    org: &Org,
    authority: [u8; 32],
    scores_sum: Vec<u32>,
    reviews_recieved: Vec<u16>,
    last_update: i64,
    levels: Vec<u8>,
    override_levels: bool,
    averages: &Vec<u32>,
    metadata_name: String,
) -> (metadata: MetadataUpdate)
    requires
        authority == org.authority,
        scores_sum.len() == org.weights.len(),
        reviews_recieved.len() == org.weights.len(),
        levels.len() == org.ranges.len() + 1,
        reconcile_inputs_defined(*org, scores_sum.len() as nat, reviews_recieved@, old(score).scores@, old(score).levels.len() as nat, averages@),
    ensures
        final(score).scores_sum@ == scores_sum@,
        final(score).reviews_recieved@ == reviews_recieved@,
        final(score).scores@ == stored_averages(old(score).scores@, averages@),
        final(score).scores.len() == old(score).scores.len(),
        forall|g: int| 0 <= g < averages.len() ==> #[trigger] final(score).scores@[g] == averages@[g],
        final(score).levels@ == (if override_levels {
            levels@
        } else {
            step_toward(old(score).levels@, earned_levels(stored_averages(old(score).scores@, averages@), old(score).levels.len() as nat, *org))
        }),
        final(score).last_update == last_update,
        is_score_update(metadata, metadata_name@, org.domain@, final(score).levels@, org.mint),
        final(score).name@ == old(score).name@,
        final(score).applicant == old(score).applicant,
        final(score).mint == old(score).mint,
        final(score).reviews_sent == old(score).reviews_sent,
        final(score).bump == old(score).bump,
        old(score).well_shaped(*org) && org.well_formed() ==> final(score).well_shaped(*org),
{
    score.scores_sum = scores_sum;
    score.reviews_recieved = reviews_recieved;
    let next_level = score.reconcile(org, averages);
    score.levels = next_level;
    score.last_update = last_update;
    if override_levels {
        score.levels = levels;
    }
    crate::metadata::score_update(metadata_name, &org.domain, &score.levels, org.mint)
}

/// Whether the score NFT still has to be verified in the organization's
/// collection: only when it is not verified yet.
pub fn verify(org: &Org, authority: [u8; 32], collection_verified: bool) -> (verify_now: bool)
    requires
        authority == org.authority,
    ensures
        verify_now == !collection_verified,
{
    !collection_verified
}

/// The size of an account after growing by `space_to_add` bytes.
pub fn new_account_size(data_len: usize, space_to_add: usize) -> (size: usize)
    requires
        data_len + space_to_add <= usize::MAX,
    ensures
        size == data_len + space_to_add,
{
    data_len + space_to_add
}

/// The lamports to move into an account so that it holds `lamports_required`.
pub fn rent_top_up(lamports_required: u64, lamports: u64) -> (top_up: u64)
    requires
        lamports <= lamports_required,
    ensures
        top_up == lamports_required - lamports,
{
    lamports_required - lamports
}

/// Whether a review runs through (see `receive_defined`).
pub fn can_receive_score(
    score: &Score,
    org: &Org,
    review: &Vec<u32>,
    new_sums: &Vec<u32>,
    averages: &Vec<u32>,
    collection_verified: bool,
    clock_ts: i64,
    timestamp_override: i64,
) -> (ok: bool)
    ensures
        ok == receive_defined(*score, *org, review@, new_sums@, averages@, collection_verified, clock_ts, timestamp_override),
{
    if review.len() != org.weights.len() || review.len() > score.scores_sum.len() || new_sums.len() != score.scores_sum.len() {
        return false;
    }
    if !score.can_tally_reviews(review) {
        return false;
    }
    let counts = crate::score::tally_counts(&score.reviews_recieved, review);
    if !crate::score::reconcile_inputs_ok(org, new_sums.len(), &counts, &score.scores, score.levels.len(), averages) {
        return false;
    }
    let stored = crate::score::with_averages(&score.scores, averages);
    let potential = crate::score::potential_levels(&stored, score.levels.len(), org);
    let next = crate::levels::next_level(&score.levels, &potential);
    if !collection_verified || same_levels(&score.levels, &next) {
        return true;
    }
    let wait = org.level_wait as i64;
    if (wait > 0 && score.last_update > i64::MAX - wait) || (wait < 0 && score.last_update < i64::MIN - wait) {
        return false;
    }
    let submission_ts = if timestamp_override != 0 { timestamp_override } else { clock_ts };
    if score.last_update + wait < submission_ts {
        return counts.len() > 0;
    }
    true
}

/// The largest of a non-empty list of review counts.
pub open spec fn max_count(reviews: Seq<u16>) -> u16
    decreases reviews.len(),
{
    if reviews.len() <= 1 {
        reviews[0]
    } else {
        let rest = max_count(reviews.drop_last());
        if reviews.last() > rest { reviews.last() } else { rest }
    }
}

/// The largest count is one of the counts, and no count exceeds it.
proof fn lemma_max_count(reviews: Seq<u16>)
    requires
        reviews.len() > 0,
    ensures
        exists|p: int| 0 <= p < reviews.len() && reviews[p] == max_count(reviews),
        forall|p: int| 0 <= p < reviews.len() ==> #[trigger] reviews[p] <= max_count(reviews),
    decreases reviews.len(),
{
    if reviews.len() > 1 {
        let rest = reviews.drop_last();
        lemma_max_count(rest);
        let q = choose|q: int| 0 <= q < rest.len() && rest[q] == max_count(rest);
        assert(reviews[q] == rest[q]);
        assert forall|p: int| 0 <= p < reviews.len() implies #[trigger] reviews[p] <= max_count(reviews) by {
            if p < rest.len() {
                assert(reviews[p] == rest[p]);
            }
        }
        if reviews.last() > max_count(rest) {
            assert(reviews[reviews.len() - 1] == max_count(reviews));
        }
    } else {
        assert(reviews[0] == max_count(reviews));
    }
}

/// The review-count condition of a level move holds exactly when the largest
/// review count reaches the minimum: any one count at the minimum suffices, and
/// the condition never holds with every count below it.
pub proof fn lemma_reviews_reach_is_max(reviews: Seq<u16>, min_reviews: u8)
    ensures
        forall|p: int| 0 <= p < reviews.len() && #[trigger] reviews[p] >= min_reviews ==> reviews_reach(reviews, min_reviews),
        reviews_reach(reviews, min_reviews) ==> exists|p: int| 0 <= p < reviews.len() && reviews[p] >= min_reviews,
        reviews.len() > 0 ==> (reviews_reach(reviews, min_reviews) <==> max_count(reviews) >= min_reviews),
        reviews.len() == 0 ==> !reviews_reach(reviews, min_reviews),
{
    if reviews.len() > 0 {
        lemma_max_count(reviews);
        if max_count(reviews) >= min_reviews {
            let p = choose|p: int| 0 <= p < reviews.len() && reviews[p] == max_count(reviews);
            assert(reviews[p] >= min_reviews);
        }
    }
}

/// The outcome of a review on the levels, case by case: an unverified NFT
/// changes nothing; levels already at the next levels only take the clock time
/// as last update; otherwise the levels move to the next levels at the
/// submission time exactly when the cooldown has passed before the submission
/// time and some count reaches the minimum, and otherwise neither the levels
/// nor the last update change.
pub proof fn lemma_level_outcome_cases(levels: Seq<u8>, last_update: i64, reviews: Seq<u16>, org: Org, next_level: Seq<u8>, collection_verified: bool, clock_ts: i64, timestamp_override: i64)
    ensures
        ({
            let out = level_outcome(levels, last_update, reviews, org, next_level, collection_verified, clock_ts, timestamp_override);
            let submission = if timestamp_override != 0 { timestamp_override } else { clock_ts };
            let may_move = last_update + org.level_wait < submission
                && exists|p: int| 0 <= p < reviews.len() && reviews[p] >= org.min_reviews;
            &&& !collection_verified ==> out.0 == levels && out.1 == last_update
            &&& collection_verified && levels == next_level ==> out.0 == levels && out.1 == clock_ts
            &&& collection_verified && levels != next_level && may_move ==> out.0 == next_level && out.1 == submission
            &&& collection_verified && levels != next_level && !may_move ==> out.0 == levels && out.1 == last_update
        }),
{
    lemma_reviews_reach_is_max(reviews, org.min_reviews);
}

/// One call of a run of reviews: the levels it reconciles to, whether the NFT
/// is verified, the clock, the timestamp override, and the review counts once
/// the review is counted.
pub struct ReceiveCall {
    pub next_level: Seq<u8>,
    pub collection_verified: bool,
    pub clock_ts: i64,
    pub timestamp_override: i64,
    pub reviews: Seq<u16>,
}

/// The time call `c` counts at.
pub open spec fn submission_of(c: ReceiveCall) -> i64 {
    submission_time(c.clock_ts, c.timestamp_override)
}

/// Call `k` of the run takes `levels[k]`, `updates[k]` to `levels[k + 1]`, `updates[k + 1]`.
pub open spec fn run_step(org: Org, levels: Seq<Seq<u8>>, updates: Seq<i64>, calls: Seq<ReceiveCall>, k: int) -> bool {
    (levels[k + 1], updates[k + 1]) == level_outcome(
        levels[k], updates[k], calls[k].reviews, org, calls[k].next_level,
        calls[k].collection_verified, calls[k].clock_ts, calls[k].timestamp_override)
}

/// A run of reviews of one record, with no other instruction writing it, a
/// clock that never goes back, and overrides never ahead of the clock.
pub open spec fn review_run(org: Org, levels: Seq<Seq<u8>>, updates: Seq<i64>, calls: Seq<ReceiveCall>) -> bool {
    &&& levels.len() == calls.len() + 1
    &&& updates.len() == calls.len() + 1
    &&& forall|k: int| 0 <= k < calls.len() ==> #[trigger] run_step(org, levels, updates, calls, k)
    &&& forall|k: int, l: int| 0 <= k <= l < calls.len() ==> #[trigger] calls[k].clock_ts <= #[trigger] calls[l].clock_ts
    &&& forall|k: int| 0 <= k < calls.len() && (#[trigger] calls[k]).timestamp_override != 0 ==> calls[k].timestamp_override <= calls[k].clock_ts
}

/// Between two successive level moves of a run, the last update never falls
/// below the first move's submission time.
proof fn lemma_last_update_floor(org: Org, levels: Seq<Seq<u8>>, updates: Seq<i64>, calls: Seq<ReceiveCall>, i: int, k: int)
    requires
        review_run(org, levels, updates, calls),
        0 <= i < k <= calls.len(),
        levels[i + 1] != levels[i],
        forall|m: int| i < m < k ==> #[trigger] levels[m + 1] == levels[m],
    ensures
        updates[k] >= submission_of(calls[i]),
    decreases k,
{
    assert(run_step(org, levels, updates, calls, i));
    if k > i + 1 {
        lemma_last_update_floor(org, levels, updates, calls, i, k - 1);
        assert(run_step(org, levels, updates, calls, k - 1));
        assert(levels[k] == levels[k - 1]);
        assert(calls[i].clock_ts <= calls[k - 1].clock_ts);
    }
}

/// Cooldown: in a run of reviews, two successive moves of the levels are more
/// than the organization's level wait apart in submission time.
pub proof fn lemma_level_cooldown(org: Org, levels: Seq<Seq<u8>>, updates: Seq<i64>, calls: Seq<ReceiveCall>, i: int, j: int)
    requires
        review_run(org, levels, updates, calls),
        0 <= i < j < calls.len(),
        levels[i + 1] != levels[i],
        levels[j + 1] != levels[j],
        forall|m: int| i < m < j ==> #[trigger] levels[m + 1] == levels[m],
    ensures
        submission_of(calls[i]) + org.level_wait < submission_of(calls[j]),
{
    lemma_last_update_floor(org, levels, updates, calls, i, j);
    assert(run_step(org, levels, updates, calls, j));
}

/// A received review moves the levels by at most one step: at most one level
/// changes, by one, toward the levels that the updated scores earn.
pub proof fn lemma_review_moves_one_step(score: Score, org: Org, averages: Seq<u32>, final_levels: Seq<u8>)
    requires
        final_levels == score.levels@ || final_levels == reconciled_levels(score, org, averages),
        final_levels != score.levels@,
    ensures
        exists|d: int| 0 <= d < score.levels.len()
            && (#[trigger] final_levels[d] == score.levels@[d] + 1 || final_levels[d] == score.levels@[d] - 1)
            && forall|j: int| 0 <= j < score.levels.len() && j != d ==> final_levels[j] == score.levels@[j],
{
    let target = earned_levels(stored_averages(score.scores@, averages), score.levels.len() as nat, org);
    crate::levels::lemma_step_approaches(score.levels@, target);
    let d = choose|d: int| #![trigger crate::levels::first_difference(score.levels@, target, d)]
        crate::levels::first_difference(score.levels@, target, d)
        && step_toward(score.levels@, target)[d] != score.levels@[d]
        && forall|j: int| 0 <= j < score.levels@.len() && j != d ==> step_toward(score.levels@, target)[j] == score.levels@[j];
    crate::levels::lemma_first_difference_unique(score.levels@, target, d);
}

} // verus!
