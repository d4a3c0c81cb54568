//! The ways in which checking can fail.

use vstd::prelude::*;

verus! {

/// Why the machine, or one of its data structures, refused an operation.
///
/// `TypeMismatch` and `CircularInstantiation` are the ordinary outcomes of checking an
/// ill-typed program. The others point at a malformed input or at a misuse of the
/// data structures: a variable that nothing declares, an existential that is solved
/// twice, a position that is no longer in the list.
#[derive(Clone, Copy, Debug, PartialEq, Eq, Structural)]
pub enum TyckError {
    TypeMismatch,
    CircularInstantiation,
    UnboundVariable,
    DoubleSolve,
    InvariantViolation,
}

impl TyckError {
    /// A short name of the error for messages.
    pub fn describe(&self) -> (s: &'static str)
        ensures
            s@ == (match *self {
                TyckError::TypeMismatch => "type mismatch"@,
                TyckError::CircularInstantiation => "circular instantiation"@,
                TyckError::UnboundVariable => "unbound variable"@,
                TyckError::DoubleSolve => "double solve"@,
                TyckError::InvariantViolation => "invariant violation"@,
            }),
    {
        match self {
            TyckError::TypeMismatch => "type mismatch",
            TyckError::CircularInstantiation => "circular instantiation",
            TyckError::UnboundVariable => "unbound variable",
            TyckError::DoubleSolve => "double solve",
            TyckError::InvariantViolation => "invariant violation",
        }
    }
}

} // verus!
