use vstd::prelude::*;
use vstd::string::*;
use crate::error::ErrorKind;

verus! {

/// What the input field of the user interface is used for.
#[derive(Debug, Clone, Copy, PartialEq, Eq, Structural)]
pub enum Mode {
    Calculation,
    VariableAssignment,
}

impl Mode {
    /// The mode that a name stands for.
    pub open spec fn spec_str_to_mode(value: Seq<char>) -> Result<Mode, ErrorKind> {
        if value == "calculation"@ {
            Ok(Mode::Calculation)
        } else if value == "variable-assignment"@ {
            Ok(Mode::VariableAssignment)
        } else {
            Err(ErrorKind::UnknownMode)
        }
    }

    /// Reads the name of a mode.
    pub fn str_to_mode(value: &str) -> (r: Result<Self, ErrorKind>)
        ensures
            r == Self::spec_str_to_mode(value@),
    {
        let name = String::from_str(value);
        if name == String::from_str("calculation") {
            Ok(Mode::Calculation)
        } else if name == String::from_str("variable-assignment") {
            Ok(Mode::VariableAssignment)
        } else {
            Err(ErrorKind::UnknownMode)
        }
    }
}

} // verus!
