//! Utility-AI decision engine: hierarchical score aggregation, action picking
//! and the action lifecycle, over scores held as fixed-point fractions.
pub mod score;
pub mod scoring;
pub mod measured;
pub mod evaluator;
pub mod random;
pub mod tree;
pub mod dispatch;
pub mod ancestor;
pub mod picking;
pub mod acting;
