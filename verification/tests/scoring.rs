use designity::grouping::{plan_groups, score_groups, ScoreGroup};
use designity::ieee::{is_nonzero, less_than};
use designity::instructions::{
    can_receive_score, create_organization, new_account_size, receive_score, register, rent_top_up,
    send_score, update_scores, verify,
};
use designity::levels::{earned_level, level_fits, next_level};
use designity::metadata::{org_uri_for, score_uri_for};
use designity::org::Org;
use designity::score::{counted_dimensions, tally_counts, Score};

fn bits(v: &[f32]) -> Vec<u32> {
    v.iter().map(|x| x.to_bits()).collect()
}

fn key(b: u8) -> [u8; 32] {
    [b; 32]
}

fn sample_org() -> Org {
    Org {
        name: "Acme".to_string(),
        min_reviews: 2,
        weights: bits(&[1.0, 1.0, 2.0, 1.0]),
        ranges: vec![2],
        levels: vec![bits(&[1.0, 2.0, 3.0]), bits(&[1.5, 2.5])],
        mint: key(7),
        authority: key(1),
        domain: "https://acme.io".to_string(),
        bump: 254,
        level_wait: 100,
    }
}

fn registered_score(org: &Org, levels: Vec<u8>) -> Score {
    register(org, key(1), key(2), key(3), 250, "Ann".to_string(), levels, 1000).score
}

/// The weighted group averages of sums and counts, computed as the program computes them.
fn averages_of(sums: &[u32], reviews: &Vec<u16>, org: &Org) -> Vec<u32> {
    score_groups(org, sums.len())
        .iter()
        .map(|g| {
            let mut sum = 0.0f32;
            let mut counter = 0.0f32;
            for p in counted_dimensions(reviews, g) {
                sum += f32::from_bits(sums[p]) * f32::from_bits(org.weights[p]) / reviews[p] as f32;
                counter += f32::from_bits(org.weights[p]);
            }
            (sum / counter).to_bits()
        })
        .collect()
}

fn averages(score: &Score, org: &Org) -> Vec<u32> {
    averages_of(&score.scores_sum, &score.reviews_recieved, org)
}

/// Receives one review as the program does: adds it to the sums, counts it,
/// averages the updated record and lets the library decide.
fn receive(s: &mut Score, org: &Org, review: &[f32], verified: bool, clock: i64, ovr: i64) -> Option<designity::metadata::MetadataUpdate> {
    let bits_review = bits(review);
    let mut new_sums = s.scores_sum.clone();
    for (p, e) in review.iter().enumerate() {
        new_sums[p] = (f32::from_bits(new_sums[p]) + e).to_bits();
    }
    let counts = tally_counts(&s.reviews_recieved, &bits_review);
    let avgs = averages_of(&new_sums, &counts, org);
    assert!(can_receive_score(s, org, &bits_review, &new_sums, &avgs, verified, clock, ovr));
    receive_score(s, org, key(1), &bits_review, new_sums, &avgs, "N".to_string(), verified, clock, ovr)
}

#[test]
fn less_than_matches_float_order() {
    let values = [
        0.0f32, -0.0, 1.0, -1.0, 0.5, -0.5, 2.5, 1e-40, -1e-40, 3.4e38, -3.4e38,
        f32::INFINITY, f32::NEG_INFINITY, f32::NAN, -f32::NAN, f32::MIN_POSITIVE,
    ];
    for a in values.iter() {
        for b in values.iter() {
            assert_eq!(less_than(a.to_bits(), b.to_bits()), a < b, "{} < {}", a, b);
        }
        assert_eq!(is_nonzero(a.to_bits()), *a != 0.0, "{} != 0", a);
    }
}

#[test]
fn earned_level_counts_leading_thresholds_below() {
    let thresholds = bits(&[1.0, 2.0, 3.0]);
    assert_eq!(earned_level(&thresholds, 2.5f32.to_bits()), 2);
    assert_eq!(earned_level(&thresholds, 0.5f32.to_bits()), 0);
    assert_eq!(earned_level(&thresholds, 2.0f32.to_bits()), 1);
    assert_eq!(earned_level(&thresholds, 9.0f32.to_bits()), 3);
    assert_eq!(earned_level(&thresholds, f32::NAN.to_bits()), 0);
    // Not ascending: counting stops at the first threshold not below the score.
    let unsorted = bits(&[1.0, 5.0, 2.0]);
    assert_eq!(earned_level(&unsorted, 3.0f32.to_bits()), 1);
}

#[test]
fn level_fits_a_byte_up_to_255_thresholds_below() {
    let many = vec![0u32; 300];
    assert!(!level_fits(&many, 1.0f32.to_bits()));
    assert!(level_fits(&many, 0.0f32.to_bits()));
    let enough = vec![0u32; 255];
    assert!(level_fits(&enough, 1.0f32.to_bits()));
    assert_eq!(earned_level(&enough, 1.0f32.to_bits()), 255);
}

#[test]
fn next_level_moves_one_step_at_first_difference() {
    assert_eq!(next_level(&vec![1, 2, 3], &vec![1, 4, 0]), vec![1, 3, 3]);
    assert_eq!(next_level(&vec![1, 2, 3], &vec![1, 2, 0]), vec![1, 2, 2]);
    assert_eq!(next_level(&vec![1, 2, 3], &vec![1, 2, 3]), vec![1, 2, 3]);
    assert_eq!(next_level(&vec![2], &vec![0]), vec![1]);
    // Shorter levels than targets: only the common positions count.
    assert_eq!(next_level(&vec![1], &vec![1, 5]), vec![1]);
}

#[test]
fn repeated_steps_reach_the_target_after_the_distance() {
    let target = vec![3u8, 0, 2];
    let mut levels = vec![0u8, 2, 2];
    let mut steps = 0;
    while levels != target {
        levels = next_level(&levels, &target);
        steps += 1;
    }
    assert_eq!(steps, 5);
}

#[test]
fn groups_follow_the_ranges() {
    let mut org = sample_org();
    org.ranges = vec![2, 4];
    org.weights = bits(&[1.0; 6]);
    assert_eq!(
        score_groups(&org, 6),
        vec![
            ScoreGroup { first: 0, last: 1 },
            ScoreGroup { first: 2, last: 3 },
            ScoreGroup { first: 4, last: 5 }
        ]
    );
    org.ranges = vec![3, 1];
    org.weights = bits(&[1.0; 4]);
    assert_eq!(
        score_groups(&org, 4),
        vec![ScoreGroup { first: 0, last: 2 }, ScoreGroup { first: 3, last: 3 }]
    );
    // Fewer dimensions than the first bound: no group closes.
    assert_eq!(score_groups(&org, 2), vec![]);
}

#[test]
fn groups_undefined_without_ranges_or_with_zero_bound() {
    let mut org = sample_org();
    org.ranges = vec![];
    assert!(plan_groups(&org, 3).is_none());
    assert!(plan_groups(&org, 0).is_some());
    org.ranges = vec![0];
    assert!(plan_groups(&org, 1).is_none());
    org.ranges = vec![1];
    org.weights = vec![0u32; 256];
    // Past the ranges the bound is the number of weights as a byte: 256 wraps to 0.
    assert!(plan_groups(&org, 1).is_some());
    assert!(plan_groups(&org, 2).is_none());
}

#[test]
fn create_organization_fills_config_and_metadata() {
    let created = create_organization(
        key(1),
        key(7),
        253,
        bits(&[1.0, 2.0]),
        vec![1],
        vec![bits(&[1.0, 2.0, 3.0]), bits(&[4.0])],
        "Acme".to_string(),
        3,
        "https://acme.io".to_string(),
        60,
    );
    assert_eq!(created.space_to_add, 4 * 4 + 2 + 100);
    assert_eq!(created.metadata.data.name, "Acme Organization");
    assert_eq!(created.metadata.data.symbol, "GRWTH");
    assert_eq!(created.metadata.data.uri, "https://acme.io/org.json");
    assert_eq!(created.metadata.data.seller_fee_basis_points, 0);
    assert!(created.metadata.data.collection.is_none());
    assert!(created.metadata.data.creators.is_none() && created.metadata.data.uses.is_none());
    assert!(created.metadata.is_mutable && created.metadata.update_authority_is_signer);
    assert_eq!(created.metadata.collection_size, Some(0));
    assert_eq!(created.mint_amount, 1);
    assert_eq!(created.max_supply, Some(0));
    assert_eq!(created.org.authority, key(1));
    assert_eq!(created.org.mint, key(7));
    assert_eq!(created.org.bump, 253);
    assert_eq!(created.org.level_wait, 60);
    assert_eq!(created.org.min_reviews, 3);
    assert_eq!(created.org.ranges, vec![1]);
}

#[test]
fn register_creates_zeroed_record() {
    let org = sample_org();
    let reg = register(&org, key(1), key(2), key(3), 250, "Ann".to_string(), vec![1, 12], 1000);
    assert_eq!(reg.score.scores, vec![0, 0]);
    assert_eq!(reg.score.scores_sum, vec![0, 0, 0, 0]);
    assert_eq!(reg.score.reviews_recieved, vec![0, 0, 0, 0]);
    assert_eq!(reg.score.levels, vec![1, 12]);
    assert_eq!(reg.score.name, "Ann");
    assert_eq!(reg.score.last_update, 1000);
    assert_eq!(reg.score.applicant, key(2));
    assert_eq!(reg.score.mint, key(3));
    assert_eq!(reg.score.reviews_sent, 0);
    assert_eq!(reg.score.bump, 250);
    assert_eq!(reg.space_to_add, 4 * 2 + 4 * 4 + 2 + 3 * 4 + 2 * 4);
    assert_eq!(reg.metadata.data.name, "Acme - Ann");
    assert_eq!(reg.metadata.data.symbol, "SCORE");
    assert_eq!(reg.metadata.data.uri, "https://acme.io/1-12.json");
    assert_eq!(reg.metadata.collection_size, None);
    assert_eq!(reg.mint_amount, 1);
    let c = reg.metadata.data.collection.unwrap();
    assert_eq!(c.key, key(7));
    assert!(!c.verified);
}

#[test]
fn uris_render_levels_in_decimal() {
    let domain = "d".to_string();
    assert_eq!(score_uri_for(&domain, &vec![0, 9, 10, 99, 100, 255]), "d/0-9-10-99-100-255.json");
    assert_eq!(score_uri_for(&domain, &vec![]), "d/.json");
    assert_eq!(org_uri_for(&domain), "d/org.json");
}

#[test]
fn tally_counts_nonzero_dimensions() {
    let org = sample_org();
    let mut score = registered_score(&org, vec![0, 0]);
    score.reviews_recieved = vec![0, 5, 6, 7];
    let review = bits(&[1.0, 0.0, -0.0, f32::NAN]);
    assert!(score.can_tally_reviews(&review));
    score.tally_reviews(&review);
    assert_eq!(score.reviews_recieved, vec![1, 5, 6, 8]);
    score.reviews_recieved = vec![u16::MAX, 0, 0, 0];
    assert!(!score.can_tally_reviews(&review));
    assert!(score.can_tally_reviews(&bits(&[0.0, 1.0])));
}

#[test]
fn reconcile_averages_groups_and_steps_levels() {
    let org = sample_org();
    let mut score = registered_score(&org, vec![0, 0]);
    score.scores_sum = bits(&[5.0, 3.0, 6.0, 0.0]);
    score.reviews_recieved = vec![2, 1, 2, 0];
    assert!(score.can_update_scores(&org));
    let avgs = averages(&score, &org);
    // Group 0: (5*1/2 + 3*1/1) / 2 = 2.75; group 1: (6*2/2) / 2 = 3.0.
    assert_eq!(avgs, bits(&[2.75, 3.0]));
    assert!(score.can_reconcile(&org, &avgs));
    let potential = {
        let mut copy = registered_score(&org, vec![0, 0]);
        copy.scores = avgs.clone();
        copy.calculate_potential_level(&org)
    };
    assert_eq!(potential, vec![2, 2]);
    let next = score.reconcile(&org, &avgs);
    assert_eq!(score.scores, avgs);
    assert_eq!(next, vec![1, 0]);
}

#[test]
fn reconcile_refuses_averages_that_do_not_fit() {
    let org = sample_org();
    let score = registered_score(&org, vec![0, 0]);
    assert!(!score.can_reconcile(&org, &bits(&[1.0])));
    assert!(score.can_reconcile(&org, &bits(&[1.0, 1.0])));
    let mut org_without_ranges = sample_org();
    org_without_ranges.ranges = vec![];
    assert!(!score.can_update_scores(&org_without_ranges));
}

#[test]
fn receive_score_outcomes() {
    let org = sample_org();
    // Thresholds: group 0 [1, 2, 3], group 1 [1.5, 2.5]; min reviews 2; level wait 100.
    let mut s = registered_score(&org, vec![0, 0]);

    // Not verified in the collection: the review is counted and averaged, the levels stay.
    assert!(receive(&mut s, &org, &[3.0, 3.0, 0.0, 0.0], false, 5000, 0).is_none());
    assert_eq!(s.reviews_recieved, vec![1, 1, 0, 0]);
    assert_eq!(s.scores_sum, bits(&[3.0, 3.0, 0.0, 0.0]));
    assert_eq!(s.scores[0], 3.0f32.to_bits());
    assert!(f32::from_bits(s.scores[1]).is_nan());
    assert_eq!(s.levels, vec![0, 0]);
    assert_eq!(s.last_update, 1000);

    // Verified but only one review per dimension: no move.
    assert!(receive(&mut s, &org, &[0.0, 0.0, 0.0, 0.0], true, 5000, 0).is_none());
    assert_eq!(s.levels, vec![0, 0]);

    // Enough reviews and past the cooldown: one step, at the override time.
    let update = receive(&mut s, &org, &[3.0, 3.0, 3.0, 3.0], true, 9000, 5101).unwrap();
    assert_eq!(s.reviews_recieved, vec![2, 2, 1, 1]);
    assert_eq!(s.levels, vec![1, 0]);
    assert_eq!(s.last_update, 5101);
    assert_eq!(update.data.uri, "https://acme.io/1-0.json");
    assert_eq!(update.data.name, "N");
    assert_eq!(update.data.symbol, "SCORE");
    assert_eq!(update.data.seller_fee_basis_points, 0);
    assert!(update.data.creators.is_none() && update.data.uses.is_none());
    assert!(update.new_update_authority.is_none());
    assert_eq!(update.primary_sale_happened, Some(true));
    assert_eq!(update.is_mutable, Some(true));
    let c = update.data.collection.unwrap();
    assert!(c.verified);
    assert_eq!(c.key, key(7));

    // Within the cooldown (5101 + 100 is not before 5201): no move.
    assert!(receive(&mut s, &org, &[3.0, 3.0, 3.0, 3.0], true, 5201, 0).is_none());
    assert_eq!(s.levels, vec![1, 0]);
    assert_eq!(s.last_update, 5101);

    // Past the cooldown: the next single step.
    assert!(receive(&mut s, &org, &[3.0, 3.0, 3.0, 3.0], true, 5202, 0).is_some());
    assert_eq!(s.levels, vec![2, 0]);
    assert_eq!(s.last_update, 5202);
}

#[test]
fn receive_score_at_earned_levels_sets_clock() {
    let mut org = sample_org();
    org.levels = vec![vec![], vec![]];
    let mut s = registered_score(&org, vec![0, 0]);
    assert!(receive(&mut s, &org, &[1.0, 1.0, 1.0, 1.0], true, 7000, 6000).is_none());
    assert_eq!(s.levels, vec![0, 0]);
    assert_eq!(s.last_update, 7000);
}

#[test]
fn receive_score_refuses_reviews_of_wrong_length() {
    let org = sample_org();
    let s = registered_score(&org, vec![0, 0]);
    let review = bits(&[1.0, 1.0]);
    let new_sums = s.scores_sum.clone();
    let avgs = averages(&s, &org);
    assert!(!can_receive_score(&s, &org, &review, &new_sums, &avgs, true, 0, 0));
}

#[test]
fn counted_dimensions_skip_unreviewed() {
    let g = ScoreGroup { first: 1, last: 4 };
    assert_eq!(counted_dimensions(&vec![5, 0, 2, 0, 1, 9], &g), vec![2, 4]);
    assert_eq!(tally_counts(&vec![0, 1, 2], &bits(&[0.0, 1.0])), vec![0, 2, 2]);
}

#[test]
fn storing_the_same_averages_twice_changes_nothing() {
    let org = sample_org();
    let mut s = registered_score(&org, vec![0, 0]);
    let sums = bits(&[4.0, 4.0, 8.0, 0.0]);
    let reviews = vec![1u16, 1, 2, 0];
    let avgs = averages_of(&sums, &reviews, &org);
    update_scores(&mut s, &org, key(1), sums.clone(), reviews.clone(), 5, vec![2, 2], true, &avgs, "N".to_string());
    let first = (s.scores.clone(), s.levels.clone(), s.last_update);
    update_scores(&mut s, &org, key(1), sums, reviews, 5, vec![2, 2], true, &avgs, "N".to_string());
    assert_eq!((s.scores.clone(), s.levels.clone(), s.last_update), first);
}

#[test]
fn send_score_counts_requests() {
    let org = sample_org();
    let mut s = registered_score(&org, vec![0, 0]);
    send_score(&mut s, &org, key(1));
    send_score(&mut s, &org, key(1));
    assert_eq!(s.reviews_sent, 2);
}

#[test]
fn update_scores_overrides_totals_and_levels() {
    let org = sample_org();
    let mut s = registered_score(&org, vec![0, 0]);
    let sums = bits(&[4.0, 4.0, 8.0, 0.0]);
    let reviews = vec![1u16, 1, 2, 0];
    let mut preview = registered_score(&org, vec![0, 0]);
    preview.scores_sum = sums.clone();
    preview.reviews_recieved = reviews.clone();
    let avgs = averages(&preview, &org);
    assert_eq!(avgs, bits(&[4.0, 4.0]));
    let m = update_scores(&mut s, &org, key(1), sums.clone(), reviews.clone(), 777, vec![3, 1], false, &avgs, "N".to_string());
    assert_eq!(s.scores_sum, sums);
    assert_eq!(s.reviews_recieved, reviews);
    assert_eq!(s.scores, avgs);
    assert_eq!(s.levels, vec![1, 0]);
    assert_eq!(s.last_update, 777);
    assert_eq!(m.data.uri, "https://acme.io/1-0.json");
    assert_eq!(m.primary_sale_happened, Some(true));
    let m = update_scores(&mut s, &org, key(1), sums, reviews, 778, vec![3, 1], true, &avgs, "N".to_string());
    assert_eq!(s.levels, vec![3, 1]);
    assert_eq!(m.data.uri, "https://acme.io/3-1.json");
}

#[test]
fn verify_only_when_not_yet_verified() {
    let org = sample_org();
    assert!(verify(&org, key(1), false));
    assert!(!verify(&org, key(1), true));
}

#[test]
fn realloc_amounts() {
    assert_eq!(new_account_size(100, 28), 128);
    assert_eq!(rent_top_up(1_000, 400), 600);
}

#[test]
fn higher_score_never_earns_lower_level() {
    let thresholds = bits(&[1.0, 2.0, 3.0, 4.0]);
    let scores = [-1.0f32, 0.0, 1.0, 1.5, 2.0, 3.5, 4.0, 10.0, f32::INFINITY];
    for a in scores.iter() {
        for b in scores.iter() {
            if a <= b {
                assert!(earned_level(&thresholds, a.to_bits()) <= earned_level(&thresholds, b.to_bits()));
            }
        }
    }
}

#[test]
fn ascending_thresholds_count_all_below() {
    let thresholds = bits(&[-2.0, 0.0, 0.5, 7.0]);
    for s in [-3.0f32, -2.0, -1.0, 0.25, 0.5, 6.0, 8.0].iter() {
        let below = thresholds.iter().filter(|t| f32::from_bits(**t) < *s).count();
        assert_eq!(earned_level(&thresholds, s.to_bits()) as usize, below);
    }
}

#[test]
fn registered_record_keeps_its_shape() {
    let org = sample_org();
    let mut s = registered_score(&org, vec![0, 0]);
    let shape = |s: &Score| {
        (s.scores.len(), s.levels.len(), s.scores_sum.len(), s.reviews_recieved.len())
    };
    assert_eq!(shape(&s), (2, 2, 4, 4));
    receive(&mut s, &org, &[1.0, 2.0, 3.0, 4.0], true, 10_000, 0);
    receive(&mut s, &org, &[1.0, 2.0, 3.0, 4.0], true, 20_000, 0);
    send_score(&mut s, &org, key(1));
    assert_eq!(shape(&s), (2, 2, 4, 4));
}
