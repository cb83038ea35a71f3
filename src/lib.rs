//! Backward influence search over a graph of cybernetic objects.
//!
//! Quantities (power, strength, certainty, impact) are fixed-point numbers:
//! an `i64` counting millionths, see [`fixed`].

pub mod fixed;
pub mod formulas;
pub mod graph;
pub mod influence;
pub mod model;
pub mod paths;
pub mod ranking;

pub use fixed::SCALE;
pub use formulas::{
    analyze_distortion, calculate_axiological_integrity, calculate_control_leverage,
    calculate_distortion, calculate_feedback_multiplier, calculate_total_power,
    DistortionAnalysis, DISTORTION_INFINITY,
};
pub use graph::Graph;
pub use model::{
    parse_goal, ControlSystemType, Correlation, CyberneticObject, EnergyParams, InfluencePath,
    InfluentialNode, RelationType, SteeringGoal, SystemClass,
};
pub use paths::{MAX_DEPTH, MAX_PATHS, MIN_INFLUENCE_THRESHOLD};
pub use ranking::{find_ranked_influences, rank_by_leverage, InfluenceError};
