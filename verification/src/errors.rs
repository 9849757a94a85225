use vstd::prelude::*;

verus! {

/// Error kinds reported by the solvers.
///
/// `InputInvalid` covers malformed distance matrices (non-square, size
/// mismatch with the names, negative entries, too few taxa, or inputs too
/// large for the exact 128-bit arithmetic of the engine).
/// `ConfigInvalid` covers bad driver options (a zero chunk size, a canonical
/// switch point of 0 or N).
/// `ContractViolation` reports an internal state that the engine refuses to
/// touch (an absent row, a missing ordered-set entry).
#[derive(Debug, Clone)]
pub enum NjError {
    InputInvalid(String),
    ConfigInvalid(String),
    ContractViolation(String),
}

impl NjError {
    pub fn is_input_invalid(&self) -> (r: bool)
        ensures
            r == (self matches NjError::InputInvalid(_)),
    {
        match self {
            NjError::InputInvalid(_) => true,
            _ => false,
        }
    }

    pub fn is_config_invalid(&self) -> (r: bool)
        ensures
            r == (self matches NjError::ConfigInvalid(_)),
    {
        match self {
            NjError::ConfigInvalid(_) => true,
            _ => false,
        }
    }

    /// A short human-readable account of the error.
    pub fn detail(&self) -> &String {
        match self {
            NjError::InputInvalid(s) => s,
            NjError::ConfigInvalid(s) => s,
            NjError::ContractViolation(s) => s,
        }
    }
}

} // verus!
