use vstd::prelude::*;

use crate::type_system::Signature;
use crate::typekind::FnKind;
use crate::typekind::TypeKind;

verus! {

/// The failures a graph operation can report.  A conflict is a terminal
/// fact about the graph as built: nothing retries.
#[derive(Debug)]
pub enum TypeErrors {
    /// Two types that must unify do not: (existing, new).
    ConflictingInferredTypes(TypeKind, TypeKind),
    /// A recorded signature disagrees with the live one: (existing, new).
    ConflictingSignatures(Signature, Signature),
    TypeInferenceError,
    TypeCheckingError,
    /// Built-in validation reached an operator kind it has no rule for.
    UnsupportedOperator(FnKind),
}

} // verus!
