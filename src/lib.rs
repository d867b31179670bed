pub mod ast;
pub mod checker;
pub mod commands;
pub mod number;
pub mod pool;
pub mod rules;

use vstd::prelude::*;

verus! {

/// The model of a checking error.
pub enum SpecError {
    UnknownRule { step: usize, rule: Seq<char> },
    PremiseOutOfRange { step: usize, premise: usize },
}

/// An error that stops the check of a proof.
#[derive(Debug, PartialEq, Eq)]
pub enum Error {
    /// The step at this index names a rule that is not implemented.
    UnknownRule { step: usize, rule: String },
    /// The step at this index refers to a premise that is not an earlier command.
    PremiseOutOfRange { step: usize, premise: usize },
}

impl View for Error {
    type V = SpecError;

    open spec fn view(&self) -> SpecError {
        match self {
            Error::UnknownRule { step, rule } => SpecError::UnknownRule { step: *step, rule: rule@ },
            Error::PremiseOutOfRange { step, premise } => SpecError::PremiseOutOfRange {
                step: *step,
                premise: *premise,
            },
        }
    }
}

} // verus!
