//! The errors of the store, with their stable codes and messages.

use vstd::prelude::*;

verus! {

/// Why the store refused an operation. Each variant has a stable numeric
/// code and a fixed message.
#[derive(Clone, Copy, Debug, PartialEq, Eq, Structural)]
pub enum SolDbError {
    /// A cell is not owned by this program.
    WrongOwner,
    /// A supplied address or bump disagrees with the derived address.
    PdaMismatch,
    /// A cell does not hold a table marker.
    NotTable,
    /// An update grows a record by more than the per-operation cap.
    GrowthTooLarge,
    /// Any other code.
    WrongError,
}

impl SolDbError {
    /// The stable code of the error.
    pub open spec fn spec_code(self) -> u32 {
        match self {
            SolDbError::WrongOwner => 0,
            SolDbError::PdaMismatch => 1,
            SolDbError::NotTable => 2,
            SolDbError::GrowthTooLarge => 3,
            SolDbError::WrongError => 4,
        }
    }

    /// The error that a code stands for; unknown codes give `WrongError`.
    pub open spec fn spec_from_code(code: u32) -> SolDbError {
        if code == 0 {
            SolDbError::WrongOwner
        } else if code == 1 {
            SolDbError::PdaMismatch
        } else if code == 2 {
            SolDbError::NotTable
        } else if code == 3 {
            SolDbError::GrowthTooLarge
        } else {
            SolDbError::WrongError
        }
    }

    /// The fixed message of the error.
    pub open spec fn spec_message(self) -> Seq<char> {
        match self {
            SolDbError::WrongOwner => "account not owned by this program"@,
            SolDbError::PdaMismatch => "derived address does not match"@,
            SolDbError::NotTable => "not a table account"@,
            SolDbError::GrowthTooLarge => "growth exceeds the per-operation maximum of 10KiB"@,
            SolDbError::WrongError => "unknown error"@,
        }
    }

    pub fn code(&self) -> (r: u32)
        ensures
            r == self.spec_code(),
    {
        match self {
            SolDbError::WrongOwner => 0,
            SolDbError::PdaMismatch => 1,
            SolDbError::NotTable => 2,
            SolDbError::GrowthTooLarge => 3,
            SolDbError::WrongError => 4,
        }
    }

    pub fn to_str(&self) -> (r: &'static str)
        ensures
            r@ == self.spec_message(),
    {
        match self {
            SolDbError::WrongOwner => "account not owned by this program",
            SolDbError::PdaMismatch => "derived address does not match",
            SolDbError::NotTable => "not a table account",
            SolDbError::GrowthTooLarge => "growth exceeds the per-operation maximum of 10KiB",
            SolDbError::WrongError => "unknown error",
        }
    }
}

impl TryFrom<u32> for SolDbError {
    type Error = SolDbError;

    fn try_from(value: u32) -> (r: Result<SolDbError, SolDbError>) {
        Ok(
            match value {
                0 => SolDbError::WrongOwner,
                1 => SolDbError::PdaMismatch,
                2 => SolDbError::NotTable,
                3 => SolDbError::GrowthTooLarge,
                _ => SolDbError::WrongError,
            },
        )
    }
}

impl vstd::std_specs::convert::TryFromSpecImpl<u32> for SolDbError {
    open spec fn obeys_try_from_spec() -> bool {
        true
    }

    open spec fn try_from_spec(v: u32) -> Result<SolDbError, SolDbError> {
        Ok(SolDbError::spec_from_code(v))
    }
}

/// Why an instruction was not carried out.
#[derive(Clone, Copy, Debug, PartialEq, Eq, Structural)]
pub enum ProcessError {
    /// The instruction bytes name no operation or do not decode.
    MalformedInstruction,
    /// Fewer cells were handed in than the operation needs.
    MissingAccounts,
    /// A rule of the store refused the operation.
    Program(SolDbError),
}

} // verus!
