//! Names for the numeric codes the solver boundary uses.

use vstd::prelude::*;

verus! {

/// Standard component model identifier.
pub const MODEL_STANDARD: i32 = 0;

/// Advanced component model identifier.
pub const MODEL_ADVANCED: i32 = 1;

/// Differentiation seed parameter identifiers.
pub const SEED_MACH: i32 = 1;

pub const SEED_ALT: i32 = 2;

pub const SEED_BPR: i32 = 3;

pub const SEED_OPR: i32 = 4;

pub const SEED_ETA_COMP: i32 = 5;

pub const SEED_ETA_TURB: i32 = 6;

/// The name of a solver status code.
pub open spec fn spec_status_name(code: int) -> Seq<char> {
    if code == 0 {
        "OK"@
    } else if code == 1 {
        "MAXITER"@
    } else if code == 2 {
        "DIVERGED"@
    } else if code == 3 {
        "INVARIANT_VIOL"@
    } else if code == 4 {
        "CONSTRAINT_VIOL"@
    } else if code == 5 {
        "NONPHYSICAL"@
    } else {
        "UNKNOWN"@
    }
}

pub fn status_name(code: i32) -> (r: &'static str)
    ensures
        r@ == spec_status_name(code as int),
{
    match code {
        0 => "OK",
        1 => "MAXITER",
        2 => "DIVERGED",
        3 => "INVARIANT_VIOL",
        4 => "CONSTRAINT_VIOL",
        5 => "NONPHYSICAL",
        _ => "UNKNOWN",
    }
}

/// The name of a component model code.
pub open spec fn spec_model_name(code: int) -> Seq<char> {
    if code == 0 {
        "standard"@
    } else if code == 1 {
        "advanced"@
    } else {
        "unknown"@
    }
}

pub fn model_name(code: i32) -> (r: &'static str)
    ensures
        r@ == spec_model_name(code as int),
{
    match code {
        MODEL_STANDARD => "standard",
        MODEL_ADVANCED => "advanced",
        _ => "unknown",
    }
}

/// The name of a differentiation seed parameter code.
pub open spec fn spec_seed_param_name(code: int) -> Seq<char> {
    if code == 1 {
        "mach"@
    } else if code == 2 {
        "alt_km"@
    } else if code == 3 {
        "bpr"@
    } else if code == 4 {
        "opr"@
    } else if code == 5 {
        "eta_comp"@
    } else if code == 6 {
        "eta_turb"@
    } else {
        "unknown"@
    }
}

pub fn seed_param_name(code: i32) -> (r: &'static str)
    ensures
        r@ == spec_seed_param_name(code as int),
{
    match code {
        SEED_MACH => "mach",
        SEED_ALT => "alt_km",
        SEED_BPR => "bpr",
        SEED_OPR => "opr",
        SEED_ETA_COMP => "eta_comp",
        SEED_ETA_TURB => "eta_turb",
        _ => "unknown",
    }
}

} // verus!
