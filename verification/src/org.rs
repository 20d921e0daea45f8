//! An organization's scoring configuration.
use vstd::prelude::*;

verus! {

/// An organization: its scoring configuration and the keys it answers to.
///
/// `weights[p]` weighs review dimension `p`; `ranges` cut the dimensions into
/// groups that are averaged together; `levels[g]` lists the level thresholds of
/// group `g`, ascending.  Weights and thresholds are IEEE single-precision values
/// held by their bit patterns.
pub struct Org {
    pub name: String,
    pub min_reviews: u8,
    pub weights: Vec<u32>,
    pub ranges: Vec<u8>,
    pub levels: Vec<Vec<u32>>,
    pub mint: [u8; 32],
    pub authority: [u8; 32],
    pub domain: String,
    pub bump: u8,
    pub level_wait: i32,
}

impl Org {
    /// One threshold list per group: the `ranges` cut the dimensions into one
    /// group more than they have entries.
    pub open spec fn well_formed(self) -> bool {
        self.ranges.len() + 1 == self.levels.len()
    }
}

} // verus!
