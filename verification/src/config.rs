//! Program identification and component-model selection.

use vstd::prelude::*;

verus! {

/// Program identification carried in every configuration file.
#[derive(Debug, Clone)]
pub struct CSTNSystems {
    pub program: String,
    pub module: String,
    pub version: String,
}

/// Component model selection: each stage is either the standard or the
/// advanced model, named by string.
#[derive(Debug, Clone)]
pub struct Components {
    pub compressor: String,
    pub turbine: String,
    pub nozzle: String,
}

/// The default component model name.
pub fn default_model() -> (r: String)
    ensures
        r@ == "standard"@,
{
    "standard".to_owned()
}

impl Default for Components {
    /// Every stage defaults to the standard model.
    fn default() -> (c: Components)
        ensures
            c.compressor@ == "standard"@,
            c.turbine@ == "standard"@,
            c.nozzle@ == "standard"@,
    {
        Components {
            compressor: "standard".to_owned(),
            turbine: "standard".to_owned(),
            nozzle: "standard".to_owned(),
        }
    }
}

impl Components {
    /// The numeric model identifier of the compressor stage: one for the
    /// advanced model, zero otherwise.
    pub fn compressor_id(&self) -> (r: i32)
        ensures
            r == if self.compressor@ == "advanced"@ {
                1i32
            } else {
                0i32
            },
    {
        if self.compressor == "advanced".to_owned() {
            1
        } else {
            0
        }
    }

    /// The numeric model identifier of the turbine stage.
    pub fn turbine_id(&self) -> (r: i32)
        ensures
            r == if self.turbine@ == "advanced"@ {
                1i32
            } else {
                0i32
            },
    {
        if self.turbine == "advanced".to_owned() {
            1
        } else {
            0
        }
    }

    /// The numeric model identifier of the nozzle stage.
    pub fn nozzle_id(&self) -> (r: i32)
        ensures
            r == if self.nozzle@ == "advanced"@ {
                1i32
            } else {
                0i32
            },
    {
        if self.nozzle == "advanced".to_owned() {
            1
        } else {
            0
        }
    }
}

} // verus!
