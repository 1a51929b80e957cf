//! Verified core of a multi-objective evolutionary optimizer (NSGA-II family).
//!
//! Real-valued quantities (genes, objectives, probabilities) are carried as
//! fixed-point integers with a scale of one millionth, so that every step of
//! the algorithm is exact integer arithmetic with a proved contract.

pub mod codes;
pub mod config;
pub mod crowding;
pub mod fixed;
pub mod sorting;
pub mod evaluator;
pub mod individual;
pub mod ops;
pub mod nsga2;
pub mod ranking;
pub mod rng;

pub use codes::{status_name, model_name, seed_param_name, MODEL_STANDARD, MODEL_ADVANCED,
    SEED_MACH, SEED_ALT, SEED_BPR, SEED_OPR, SEED_ETA_COMP, SEED_ETA_TURB};
pub use config::{CSTNSystems, Components, default_model};
pub use evaluator::{Evaluation, Evaluator};
pub use fixed::SCALE;
pub use individual::{Individual, CROWD_INF, VAL_LIMIT, BOUND_LIMIT};
pub use nsga2::{NSGA2, NSGA2Config, ConfigError, ParetoFront, hypervolume_2d};
pub use rng::Lcg;
