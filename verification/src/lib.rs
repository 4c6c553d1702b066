//! A univariate, greedy, entropy-driven binary decision-tree inducer for
//! labeled numeric samples.
//!
//! Numeric feature values are fixed-point integers: an `i64` stands for the
//! real value it encodes divided by [`table::FEATURE_SCALE`]. Entropy and
//! information gain are computed in fixed point as well, scaled by
//! [`logfp::ENT_SCALE`].

pub mod dist;
pub mod entropy;
pub mod logfp;
pub mod split;
pub mod table;
pub mod tree;
