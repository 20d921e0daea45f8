//! Scoring and progression rules of the Designity organization program.
//!
//! An organization (`Org`) fixes a scoring configuration: a weight per review
//! dimension, `ranges` that cut the dimensions into averaged groups, and for each
//! group an ascending list of level thresholds.  A contributor's `Score` keeps the
//! running sums of the reviews it received, per-group averages, and the levels it
//! has reached.  Levels move one step at a time toward the level that the averages
//! earn, subject to a cooldown and a minimum number of reviews.
//!
//! Values that the program stores as IEEE single-precision numbers are held here
//! by their bit patterns (`u32`); `ieee` orders such patterns as the numbers they
//! encode are ordered.
pub mod ieee;
pub mod levels;
pub mod org;
pub mod grouping;
pub mod score;
pub mod metadata;
pub mod instructions;
