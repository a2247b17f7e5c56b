//! The ways in which a grammar can be inconsistent.

use vstd::prelude::*;

verus! {

/// Why a grammar was refused when it was built.
#[derive(Debug, Clone, Copy, PartialEq, Eq, Structural)]
pub enum GrammarError {
    /// The annotation of the module carries arguments.
    UnexpectedArguments,
    /// The module holds no enumeration to receive the commands.
    MissingTargetEnum,
    /// The enumeration that receives the commands already has variants.
    TargetEnumNotEmpty,
    /// A command is declared with unnamed fields.
    TupleStruct,
    /// A template holds something that is neither a keyword nor a capture.
    InvalidToken,
    /// A field of a command, or a default of a template, is named twice.
    RepeatedName,
    /// A template captures, or gives a default for, a field that the command
    /// does not have.
    UnknownField,
    /// A template both captures a field and gives a default for it.
    FieldCoveredTwice,
    /// A template neither captures a field nor gives a default for it.
    UncoveredField,
    /// Two templates are made of the same tokens.
    DuplicateTerminal,
}

} // verus!
