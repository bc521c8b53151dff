//! The ways in which planning an attempt can fail.

use vstd::prelude::*;

verus! {

/// Why no plan could be made. Every failure ends the attempt: no partial plan is handed out.
#[derive(Debug, Clone, Copy, PartialEq, Eq, Structural)]
pub enum PlanError {
    /// An entry of a score table lies below the table's offset, so that it would be negative
    /// once the offset is taken away.
    NegativeEntry,
    /// A value cannot be written in the digits allotted to it: it is not below
    /// `base^length`.
    DigitOverflow,
    /// A score table has no first row, or its first row has no entry.
    EmptyTable,
    /// The dataset has no score table.
    NoTables,
    /// A quantization index lies outside of what the table it is meant for can be asked.
    IndexOutOfDomain,
    /// A sum or a count that the plan holds does not fit the machine integer it is kept in.
    Overflow,
    /// The text of a score table is not lines of whole numbers with commas between them.
    MalformedTable,
}

/// The two families of failures.
#[derive(Debug, Clone, Copy, PartialEq, Eq, Structural)]
pub enum ErrorKind {
    /// The data contradict what a dataset has to be.
    DataIntegrity,
    /// The configuration does not fit the data.
    Configuration,
}

impl PlanError {
    /// The family of this failure.
    pub open spec fn spec_kind(self) -> ErrorKind {
        match self {
            PlanError::NegativeEntry => ErrorKind::DataIntegrity,
            PlanError::DigitOverflow => ErrorKind::DataIntegrity,
            PlanError::EmptyTable => ErrorKind::DataIntegrity,
            PlanError::Overflow => ErrorKind::DataIntegrity,
            PlanError::MalformedTable => ErrorKind::DataIntegrity,
            PlanError::NoTables => ErrorKind::Configuration,
            PlanError::IndexOutOfDomain => ErrorKind::Configuration,
        }
    }

    /// The family of this failure.
    #[verifier::when_used_as_spec(spec_kind)]
    pub fn kind(self) -> (kind: ErrorKind)
        ensures
            kind == self.spec_kind(),
    {
        match self {
            PlanError::NegativeEntry => ErrorKind::DataIntegrity,
            PlanError::DigitOverflow => ErrorKind::DataIntegrity,
            PlanError::EmptyTable => ErrorKind::DataIntegrity,
            PlanError::Overflow => ErrorKind::DataIntegrity,
            PlanError::MalformedTable => ErrorKind::DataIntegrity,
            PlanError::NoTables => ErrorKind::Configuration,
            PlanError::IndexOutOfDomain => ErrorKind::Configuration,
        }
    }
}

} // verus!
