//! Name lookups and component-model configuration tests.

use minotaur::{
    Components, default_model, status_name, model_name, seed_param_name, MODEL_ADVANCED,
    MODEL_STANDARD, SEED_BPR, SEED_MACH,
};

#[test]
fn test_status_names() {
    assert_eq!(status_name(0), "OK");
    assert_eq!(status_name(1), "MAXITER");
    assert_eq!(status_name(2), "DIVERGED");
    assert_eq!(status_name(3), "INVARIANT_VIOL");
    assert_eq!(status_name(4), "CONSTRAINT_VIOL");
    assert_eq!(status_name(5), "NONPHYSICAL");
    assert_eq!(status_name(-7), "UNKNOWN");
}

#[test]
fn test_model_names() {
    assert_eq!(model_name(MODEL_STANDARD), "standard");
    assert_eq!(model_name(MODEL_ADVANCED), "advanced");
    assert_eq!(model_name(9), "unknown");
}

#[test]
fn test_seed_param_names() {
    assert_eq!(seed_param_name(SEED_MACH), "mach");
    assert_eq!(seed_param_name(SEED_BPR), "bpr");
    assert_eq!(seed_param_name(0), "unknown");
}

#[test]
fn test_default_model() {
    assert_eq!(default_model(), "standard");
}

#[test]
fn test_component_ids() {
    let defaults = Components::default();
    assert_eq!(defaults.compressor_id(), 0);
    assert_eq!(defaults.turbine_id(), 0);
    assert_eq!(defaults.nozzle_id(), 0);

    let advanced = Components {
        compressor: String::from("advanced"),
        turbine: String::from("standard"),
        nozzle: String::from("advanced"),
    };
    assert_eq!(advanced.compressor_id(), 1);
    assert_eq!(advanced.turbine_id(), 0);
    assert_eq!(advanced.nozzle_id(), 1);
}
